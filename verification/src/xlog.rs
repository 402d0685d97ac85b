//! The log file proper: a streaming reader that tolerates a torn tail, and
//! a buffered append path with group-commit confirmation.
//!
//! Both sides work on byte images.  The reader is handed the file's bytes
//! and parses them; the writer accumulates the bytes to be written in
//! `pending`, and the caller moves them to the file and reports back how
//! flushing went.  Every decision — framing, checksums, LSN assignment,
//! torn-tail truncation — is made here, under contract.

use crate::row::{
    lemma_row_read_ok, push_bytes, spec_row_bytes, spec_row_read, LogError, Row, RowV, TAG_MASK,
};
use crate::xlog_dir::{bytes_eq, spec_find_byte, XLogDir};
use vstd::bytes::{
    lemma_auto_spec_u32_to_from_le_bytes, spec_u32_from_le_bytes, spec_u32_to_le_bytes,
    u32_from_le_bytes, u32_to_le_bytes,
};
use vstd::prelude::*;
use vstd::slice::{slice_subrange, slice_to_vec};

verus! {

/// Marker before every row, little-endian on disk.
pub const MARKER: u32 = 0xba0babed;

/// Marker written on clean close, little-endian on disk.
pub const EOF_MARKER: u32 = 0x10adab1e;

/// "0.12\n"
pub open spec fn spec_version() -> Seq<u8> {
    seq![48u8, 46, 49, 50, 10]
}

pub open spec fn spec_marker_bytes() -> Seq<u8> {
    spec_u32_to_le_bytes(MARKER)
}

pub open spec fn spec_eof_marker_bytes() -> Seq<u8> {
    spec_u32_to_le_bytes(EOF_MARKER)
}

/// The header lines between the version line and the blank line, parsed
/// front to back: each line runs through its newline; a lone newline ends
/// the block.  `None` when the file ends before the blank line.
pub open spec fn spec_parse_headers(s: Seq<u8>, pos: int) -> Option<(Seq<Seq<u8>>, int)>
    decreases s.len() - pos,
{
    let nl = spec_find_byte(s, 10, pos);
    if !(0 <= pos <= nl < s.len()) {
        None
    } else {
        let line = s.subrange(pos, nl + 1);
        if line == seq![10u8] {
            Some((Seq::empty(), nl + 1))
        } else {
            match spec_parse_headers(s, nl + 1) {
                None => None,
                Some((rest, end)) => Some((seq![line] + rest, end)),
            }
        }
    }
}

/// What opening a file yields: its filetype literal, its header lines, and
/// the position where rows begin; or the first failure — an empty or
/// truncated prelude, a wrong filetype, a wrong version.
pub open spec fn spec_open(s: Seq<u8>) -> Result<(Seq<u8>, Seq<Seq<u8>>, int), LogError> {
    if s.len() == 0 {
        Err(LogError::UnexpectedEof)
    } else if !(s.len() >= 5 && (s.subrange(0, 5) == crate::xlog_dir::spec_xlog_filetype()
        || s.subrange(0, 5) == crate::xlog_dir::spec_snap_filetype())) {
        Err(LogError::InvalidFiletype)
    } else if s.len() == 5 {
        Err(LogError::UnexpectedEof)
    } else if !(s.len() >= 10 && s.subrange(5, 10) == spec_version()) {
        Err(LogError::InvalidVersion)
    } else {
        match spec_parse_headers(s, 10) {
            None => Err(LogError::UnexpectedEof),
            Some((hs, end)) => Ok((s.subrange(0, 5), hs, end)),
        }
    }
}

/// What one read of the row stream yields at `pos`.
#[verifier::ext_equal]
pub enum RowOutcome {
    /// A clean end: the file stops at a row boundary, or the end-of-file
    /// marker stands here; `at` is the position after the read.
    End { at: int },
    /// A row, with the position just past its payload.
    Row { row: RowV, at: int },
    /// A torn or corrupt tail.
    Fail { err: LogError },
}

/// The row stream's outcome at `pos`: a clean end on no bytes or on the
/// end-of-file marker; a torn marker on one to three trailing bytes; a row
/// behind the row marker; otherwise the failure the bytes force.
pub open spec fn spec_read_row_at(s: Seq<u8>, pos: int) -> RowOutcome {
    if s.len() - pos == 0 {
        RowOutcome::End { at: pos }
    } else if s.len() - pos < 4 {
        RowOutcome::Fail { err: LogError::UnexpectedEof }
    } else {
        let m = spec_u32_from_le_bytes(s.subrange(pos, pos + 4));
        if m == EOF_MARKER {
            RowOutcome::End { at: pos + 4 }
        } else if m != MARKER {
            RowOutcome::Fail { err: LogError::InvalidMarker(m) }
        } else {
            match spec_row_read(s, pos + 4) {
                Ok((r, end)) => RowOutcome::Row { row: r, at: end },
                Err(e) => RowOutcome::Fail { err: e },
            }
        }
    }
}

/// Streaming parse of one log file's bytes.
#[derive(Debug)]
pub struct XlogReader {
    pub buf: Vec<u8>,
    pub pos: usize,
    pub eof: bool,
}

/// Find the first `b` at or past `pos`.
fn find_byte_from(s: &[u8], b: u8, pos: usize) -> (n: usize)
    requires
        pos <= s@.len(),
    ensures
        n as int == spec_find_byte(s@, b, pos as int),
        pos <= n <= s@.len(),
{
    let len = s.len();
    let mut n: usize = pos;
    while n < len
        invariant
            pos <= n <= len,
            len == s@.len(),
            forall|i: int| pos <= i < n ==> s@[i] != b,
        decreases len - n,
    {
        if s[n] == b {
            proof {
                crate::xlog_dir::lemma_find_byte_at(s@, b, pos as int, n as int);
            }
            return n;
        }
        n = n + 1;
    }
    proof {
        crate::xlog_dir::lemma_find_byte_at(s@, b, pos as int, n as int);
    }
    n
}

impl XlogReader {
    pub open spec fn wf(self) -> bool {
        self.pos <= self.buf@.len()
    }

    /// Open a file image: validate the filetype and version lines, collect
    /// the header lines, and stand ready at the first row.
    pub fn open(buf: Vec<u8>) -> (r: Result<(XlogReader, Vec<Vec<u8>>), LogError>)
        ensures
            match r {
                Ok((rdr, headers)) => {
                    &&& spec_open(buf@) == Ok::<(Seq<u8>, Seq<Seq<u8>>, int), LogError>(
                        (buf@.subrange(0, 5), headers.deep_view(), rdr.pos as int),
                    )
                    &&& rdr.buf@ == buf@
                    &&& rdr.wf()
                    &&& !rdr.eof
                },
                Err(e) => spec_open(buf@) == Err::<(Seq<u8>, Seq<Seq<u8>>, int), LogError>(e),
            },
    {
        if buf.len() == 0 {
            return Err(LogError::UnexpectedEof);
        }
        if buf.len() < 5 {
            return Err(LogError::InvalidFiletype);
        }
        let mut xlog_lit: Vec<u8> = Vec::new();
        xlog_lit.push(88);
        xlog_lit.push(76);
        xlog_lit.push(79);
        xlog_lit.push(71);
        xlog_lit.push(10);
        let mut snap_lit: Vec<u8> = Vec::new();
        snap_lit.push(83);
        snap_lit.push(78);
        snap_lit.push(65);
        snap_lit.push(80);
        snap_lit.push(10);
        proof {
            assert(xlog_lit@ =~= crate::xlog_dir::spec_xlog_filetype());
            assert(snap_lit@ =~= crate::xlog_dir::spec_snap_filetype());
        }
        let head = slice_subrange(buf.as_slice(), 0, 5);
        if !bytes_eq(head, xlog_lit.as_slice()) && !bytes_eq(head, snap_lit.as_slice()) {
            return Err(LogError::InvalidFiletype);
        }
        if buf.len() == 5 {
            return Err(LogError::UnexpectedEof);
        }
        let mut version: Vec<u8> = Vec::new();
        version.push(48);
        version.push(46);
        version.push(49);
        version.push(50);
        version.push(10);
        proof {
            assert(version@ =~= spec_version());
        }
        if buf.len() < 10 {
            return Err(LogError::InvalidVersion);
        }
        if !bytes_eq(slice_subrange(buf.as_slice(), 5, 10), version.as_slice()) {
            return Err(LogError::InvalidVersion);
        }
        let mut headers: Vec<Vec<u8>> = Vec::new();
        let mut pos: usize = 10;
        proof {
            assert(headers.deep_view() =~= Seq::<Seq<u8>>::empty());
            match spec_parse_headers(buf@, 10) {
                Some((rest, end)) => {
                    assert(headers.deep_view() + rest =~~= rest);
                },
                None => {},
            }
        }
        loop
            invariant
                10 <= pos <= buf@.len(),
                buf@.subrange(0, 5) == crate::xlog_dir::spec_xlog_filetype() || buf@.subrange(
                    0,
                    5,
                ) == crate::xlog_dir::spec_snap_filetype(),
                buf@.subrange(5, 10) == spec_version(),
                spec_parse_headers(buf@, 10) == (match spec_parse_headers(buf@, pos as int) {
                    None => None::<(Seq<Seq<u8>>, int)>,
                    Some((rest, end)) => Some((headers.deep_view() + rest, end)),
                }),
            decreases buf@.len() - pos,
        {
            let nl = find_byte_from(buf.as_slice(), 10, pos);
            if nl >= buf.len() {
                proof {
                    assert(spec_parse_headers(buf@, pos as int) is None);
                }
                return Err(LogError::UnexpectedEof);
            }
            let line = slice_to_vec(slice_subrange(buf.as_slice(), pos, nl + 1));
            let ghost linev = buf@.subrange(pos as int, nl + 1);
            proof {
                crate::xlog_dir::lemma_find_byte_bounds(buf@, 10, pos as int);
                assert(linev.last() == 10);
                if linev.len() == 1 {
                    assert(linev =~= seq![10u8]);
                } else {
                    assert(linev.len() != seq![10u8].len());
                }
            }
            if line.len() == 1 {
                proof {
                    let parsed = spec_parse_headers(buf@, pos as int);
                    assert(parsed == Some((Seq::<Seq<u8>>::empty(), nl + 1 as int)));
                    assert(headers.deep_view() + Seq::<Seq<u8>>::empty() =~= headers.deep_view());
                    assert(spec_parse_headers(buf@, 10) == Some(
                        (headers.deep_view(), nl + 1 as int),
                    ));
                }
                return Ok((XlogReader { buf, pos: nl + 1, eof: false }, headers));
            }
            let ghost old_dv = headers.deep_view();
            headers.push(line);
            proof {
                assert(headers.deep_view() =~~= old_dv + seq![linev]);
                match spec_parse_headers(buf@, nl + 1 as int) {
                    Some((rest, end)) => {
                        assert(old_dv + (seq![linev] + rest) =~~= (old_dv + seq![linev]) + rest);
                        assert(old_dv + (seq![linev] + rest) =~~= headers.deep_view() + rest);
                    },
                    None => {},
                }
            }
            pos = nl + 1;
        }
    }

    /// Read the next row, `Ok(None)` with the end-of-file flag set on a
    /// clean end; on an error the cursor does not move, so the caller sees
    /// exactly where the stream went bad.
    pub fn read_row(&mut self) -> (r: Result<Option<Row>, LogError>)
        requires
            old(self).wf(),
        ensures
            final(self).wf(),
            final(self).buf@ == old(self).buf@,
            match r {
                Ok(None) => spec_read_row_at(old(self).buf@, old(self).pos as int)
                    == (RowOutcome::End { at: final(self).pos as int }) && final(self).eof,
                Ok(Some(row)) => {
                    &&& spec_read_row_at(old(self).buf@, old(self).pos as int) == (RowOutcome::Row {
                        row: row@,
                        at: final(self).pos as int,
                    })
                    &&& row.wf()
                    &&& row.crc_valid()
                    &&& final(self).eof == old(self).eof
                    &&& old(self).pos < final(self).pos
                },
                Err(e) => {
                    &&& spec_read_row_at(old(self).buf@, old(self).pos as int) == (RowOutcome::Fail {
                        err: e,
                    })
                    &&& final(self).pos == old(self).pos
                    &&& final(self).eof == old(self).eof
                },
            },
    {
        let avail = self.buf.len() - self.pos;
        if avail == 0 {
            self.eof = true;
            return Ok(None);
        }
        if avail < 4 {
            return Err(LogError::UnexpectedEof);
        }
        let m = u32_from_le_bytes(slice_subrange(self.buf.as_slice(), self.pos, self.pos + 4));
        if m == EOF_MARKER {
            self.pos = self.pos + 4;
            self.eof = true;
            return Ok(None);
        }
        if m != MARKER {
            return Err(LogError::InvalidMarker(m));
        }
        match Row::read(self.buf.as_slice(), self.pos + 4) {
            Ok((row, end)) => {
                self.pos = end;
                Ok(Some(row))
            },
            Err(e) => Err(e),
        }
    }
}

/// Sum of the recorded wet-row lengths.
pub open spec fn spec_sum(s: Seq<u32>) -> int
    decreases s.len(),
{
    if s.len() == 0 {
        0
    } else {
        spec_sum(s.drop_last()) + s.last()
    }
}

pub proof fn lemma_sum_nonneg(s: Seq<u32>)
    ensures
        spec_sum(s) >= 0,
    decreases s.len(),
{
    if s.len() > 0 {
        lemma_sum_nonneg(s.drop_last());
    }
}

/// Peeling the first element off the sum.
pub proof fn lemma_sum_first(s: Seq<u32>)
    requires
        s.len() > 0,
    ensures
        spec_sum(s) == s[0] + spec_sum(s.drop_first()),
    decreases s.len(),
{
    if s.len() == 1 {
        assert(s.drop_last() =~= Seq::<u32>::empty());
        assert(s.drop_first() =~= Seq::<u32>::empty());
    } else {
        lemma_sum_first(s.drop_last());
        assert(s.drop_last().drop_first() =~= s.drop_first().drop_last());
        assert(s.drop_last()[0] == s[0]);
        assert(s.drop_first().last() == s.last());
    }
}

/// A prefix never sums to more than the whole.
pub proof fn lemma_sum_prefix_le(s: Seq<u32>, k: int)
    requires
        0 <= k <= s.len(),
    ensures
        spec_sum(s.subrange(0, k)) <= spec_sum(s),
    decreases s.len() - k,
{
    if k == s.len() {
        assert(s.subrange(0, k) =~= s);
    } else {
        lemma_sum_prefix_le(s, k + 1);
        assert(s.subrange(0, k + 1).drop_last() =~= s.subrange(0, k));
        lemma_sum_nonneg(s.subrange(0, k));
    }
}

/// How many leading rows fit in `budget` bytes: the longest prefix whose
/// cumulative length stays at or under it.
pub open spec fn spec_kept(wet: Seq<u32>, budget: int) -> int
    decreases wet.len(),
{
    if wet.len() == 0 {
        0
    } else if wet[0] > budget {
        0
    } else {
        1 + spec_kept(wet.drop_first(), budget - wet[0])
    }
}

/// The cut sits exactly where the cumulative length first exceeds the
/// budget.
pub proof fn lemma_kept_at(wet: Seq<u32>, budget: int, k: int)
    requires
        0 <= k <= wet.len(),
        k > 0 ==> spec_sum(wet.subrange(0, k)) <= budget,
        k < wet.len() ==> spec_sum(wet.subrange(0, k + 1)) > budget,
    ensures
        spec_kept(wet, budget) == k,
    decreases wet.len(),
{
    if wet.len() == 0 {
    } else {
        reveal_with_fuel(spec_sum, 2);
        assert(wet.subrange(0, 1) =~= seq![wet[0]]);
        assert(seq![wet[0]].drop_last() =~= Seq::<u32>::empty());
        assert(seq![wet[0]].last() == wet[0]);
        assert(spec_sum(seq![wet[0]]) == wet[0]);
        if k == 0 {
            assert(wet[0] > budget);
        } else {
            if wet[0] > budget {
                lemma_sum_prefix_le(wet.subrange(0, k), 1);
                assert(wet.subrange(0, k).subrange(0, 1) =~= wet.subrange(0, 1));
            }
            assert(wet[0] <= budget);
            let rest = wet.drop_first();
            assert(rest.subrange(0, k - 1) =~= wet.subrange(0, k).drop_first());
            lemma_sum_first(wet.subrange(0, k));
            if k < wet.len() {
                assert(rest.subrange(0, k) =~= wet.subrange(0, k + 1).drop_first());
                lemma_sum_first(wet.subrange(0, k + 1));
            }
            lemma_kept_at(rest, budget - wet[0], k - 1);
        }
    }
}

/// The longest prefix of wet rows whose cumulative length, added to the
/// confirmed offset, stays within the measured file length.
fn kept_prefix(wet: &Vec<u32>, offset: u64, flen: u64) -> (cut: usize)
    requires
        offset + spec_sum(wet@) <= u64::MAX,
    ensures
        cut as int == spec_kept(wet@, flen - offset),
        cut <= wet@.len(),
{
    let n = wet.len();
    let mut wet_len: u64 = 0;
    let mut i: usize = 0;
    proof {
        assert(wet@.subrange(0, 0) =~= Seq::<u32>::empty());
    }
    while i < n
        invariant
            0 <= i <= n,
            n == wet@.len(),
            offset + spec_sum(wet@) <= u64::MAX,
            wet_len == spec_sum(wet@.subrange(0, i as int)),
            i > 0 ==> offset + wet_len <= flen,
        decreases n - i,
    {
        proof {
            lemma_sum_prefix_le(wet@, i + 1);
            lemma_sum_nonneg(wet@.subrange(0, i + 1));
            assert(wet@.subrange(0, i + 1).drop_last() =~= wet@.subrange(0, i as int));
            lemma_sum_nonneg(wet@.subrange(0, i as int));
        }
        let w = wet[i];
        wet_len = wet_len + w as u64;
        if offset + wet_len > flen {
            proof {
                lemma_kept_at(wet@, flen - offset, i as int);
            }
            return i;
        }
        i = i + 1;
    }
    proof {
        assert(wet@.subrange(0, n as int) =~= wet@);
        lemma_kept_at(wet@, flen - offset, n as int);
    }
    n
}

pub proof fn lemma_sum_push(s: Seq<u32>, x: u32)
    ensures
        spec_sum(s.push(x)) == spec_sum(s) + x,
{
    assert(s.push(x).drop_last() =~= s);
    assert(s.push(x).last() == x);
}

/// The header lines laid end to end.
pub open spec fn spec_concat(ls: Seq<Seq<u8>>) -> Seq<u8>
    decreases ls.len(),
{
    if ls.len() == 0 {
        Seq::empty()
    } else {
        spec_concat(ls.drop_last()) + ls.last()
    }
}

pub proof fn lemma_concat_push(ls: Seq<Seq<u8>>, x: Seq<u8>)
    ensures
        spec_concat(ls.push(x)) == spec_concat(ls) + x,
{
    assert(ls.push(x).drop_last() =~= ls);
    assert(ls.push(x).last() == x);
}

/// Peeling the first line off the concatenation.
pub proof fn lemma_concat_first(ls: Seq<Seq<u8>>)
    requires
        ls.len() > 0,
    ensures
        spec_concat(ls) == ls[0] + spec_concat(ls.drop_first()),
    decreases ls.len(),
{
    if ls.len() == 1 {
        assert(ls.drop_last() =~= Seq::<Seq<u8>>::empty());
        assert(ls.drop_first() =~= Seq::<Seq<u8>>::empty());
        assert(spec_concat(ls) =~= ls[0] + spec_concat(ls.drop_first()));
    } else {
        lemma_concat_first(ls.drop_last());
        assert(ls.drop_last().drop_first() =~= ls.drop_first().drop_last());
        assert(ls.drop_last()[0] == ls[0]);
        assert(ls.drop_first().last() == ls.last());
        assert(ls[0] + (spec_concat(ls.drop_first().drop_last()) + ls.drop_first().last()) =~= (
        ls[0] + spec_concat(ls.drop_first().drop_last())) + ls.drop_first().last());
    }
}

/// "Created-by: octopus\n"
pub open spec fn spec_created_by_line() -> Seq<u8> {
    seq![67u8, 114, 101, 97, 116, 101, 100, 45, 98, 121, 58, 32, 111, 99, 116, 111, 112, 117, 115, 10]
}

/// "Octopus-version: " followed by the version bytes and a newline.
pub open spec fn spec_version_line(version: Seq<u8>) -> Seq<u8> {
    seq![79u8, 99, 116, 111, 112, 117, 115, 45, 118, 101, 114, 115, 105, 111, 110, 58, 32] + version
        + seq![10u8]
}

/// The two product lines every file starts its headers with.
pub open spec fn spec_std_headers(version: Seq<u8>) -> Seq<Seq<u8>> {
    seq![spec_created_by_line(), spec_version_line(version)]
}

/// The whole prelude: filetype, version line, header lines, blank line.
pub open spec fn spec_header_block(ft: Seq<u8>, headers: Seq<Seq<u8>>) -> Seq<u8> {
    ft + spec_version() + spec_concat(headers) + seq![10u8]
}

/// "Created-by: octopus\n" as bytes.
fn created_by_line() -> (v: Vec<u8>)
    ensures
        v@ == spec_created_by_line(),
{
    let mut v: Vec<u8> = Vec::new();
    v.push(67);
    v.push(114);
    v.push(101);
    v.push(97);
    v.push(116);
    v.push(101);
    v.push(100);
    v.push(45);
    v.push(98);
    v.push(121);
    v.push(58);
    v.push(32);
    v.push(111);
    v.push(99);
    v.push(116);
    v.push(111);
    v.push(112);
    v.push(117);
    v.push(115);
    v.push(10);
    proof {
        assert(v@ =~= spec_created_by_line());
    }
    v
}

/// "Octopus-version: " as bytes.
fn version_prefix() -> (v: Vec<u8>)
    ensures
        v@ == seq![79u8, 99, 116, 111, 112, 117, 115, 45, 118, 101, 114, 115, 105, 111, 110, 58, 32],
{
    let mut v: Vec<u8> = Vec::new();
    v.push(79);
    v.push(99);
    v.push(116);
    v.push(111);
    v.push(112);
    v.push(117);
    v.push(115);
    v.push(45);
    v.push(118);
    v.push(101);
    v.push(114);
    v.push(115);
    v.push(105);
    v.push(111);
    v.push(110);
    v.push(58);
    v.push(32);
    proof {
        assert(v@ =~= seq![79u8, 99, 116, 111, 112, 117, 115, 45, 118, 101, 114, 115, 105, 111, 110, 58, 32]);
    }
    v
}

/// How a flush attempt went: the caller flushed and fsynced the file, or
/// flushing failed and a stat gave the file's length.
pub enum FlushStatus {
    Flushed,
    FlushFailed(u64),
}

/// The buffered append path.  Bytes to be written collect in `pending`;
/// `wet_rows` records the length of each appended row until a confirm;
/// `offset` is the confirmed file length; `wet` is the mathematical image
/// of the unconfirmed rows.
pub struct XlogWriter {
    pub header_written: bool,
    pub inprogress: bool,
    pub truncate_before_write: bool,
    pub tag_mask: u16,
    pub next_lsn: i64,
    pub offset: u64,
    pub sync_offset: u64,
    pub wet_rows: Vec<u32>,
    pub pending: Vec<u8>,
    pub wet: Ghost<Seq<RowV>>,
}

/// Range-sync when this much confirmed data has not been handed to the
/// kernel's writeback yet.
pub const SYNC_WINDOW: u64 = 131072;

impl XlogWriter {
    /// The writer's invariant: a category mask in the top two tag bits, the
    /// recorded lengths matching the unconfirmed rows, their LSNs dense
    /// from `next_lsn` on, and the arithmetic headroom the bookkeeping
    /// needs.
    pub open spec fn wf(self) -> bool {
        &&& self.next_lsn >= 1
        &&& (self.tag_mask == 0x4000 || self.tag_mask == 0x8000 || self.tag_mask == 0xc000)
        &&& self.wet@.len() == self.wet_rows@.len()
        &&& (forall|i: int|
            0 <= i < self.wet@.len() ==> {
                &&& (#[trigger] self.wet@[i]).wf()
                &&& self.wet@[i].crc_valid()
                &&& self.wet@[i].lsn == self.next_lsn + i
                &&& self.wet_rows@[i] == 50 + self.wet@[i].len
            })
        &&& self.next_lsn + self.wet@.len() <= i64::MAX
        &&& self.offset + spec_sum(self.wet_rows@) <= u64::MAX
        &&& self.sync_offset <= self.offset
    }

    /// A writer over a file whose confirmed length is `offset` and whose
    /// next row will carry `next_lsn`.
    pub fn new(tag_mask: u16, next_lsn: i64, offset: u64) -> (w: XlogWriter)
        requires
            tag_mask == 0x4000 || tag_mask == 0x8000 || tag_mask == 0xc000,
            next_lsn >= 1,
        ensures
            w.wf(),
            w.tag_mask == tag_mask,
            w.next_lsn == next_lsn,
            w.offset == offset,
            w.sync_offset == offset,
            !w.header_written,
            !w.inprogress,
            !w.truncate_before_write,
            w.wet_rows@.len() == 0,
            w.wet@.len() == 0,
            w.pending@.len() == 0,
    {
        let w = XlogWriter {
            header_written: false,
            inprogress: false,
            truncate_before_write: false,
            tag_mask,
            next_lsn,
            offset,
            sync_offset: offset,
            wet_rows: Vec::new(),
            pending: Vec::new(),
            wet: Ghost(Seq::empty()),
        };
        proof {
            assert(spec_sum(w.wet_rows@) == 0);
        }
        w
    }

    /// Write the file prelude: the directory's filetype literal, the
    /// version line, the two product lines, the caller's extra header
    /// lines, and the blank line that ends the block.
    pub fn write_header(&mut self, dir: &XLogDir, version: &[u8], extra: &Vec<Vec<u8>>)
        requires
            old(self).wf(),
            !old(self).header_written,
            old(self).pending@.len() == 0,
        ensures
            final(self).wf(),
            final(self).header_written,
            final(self).pending@ == spec_header_block(
                dir.filetype@,
                spec_std_headers(version@) + extra.deep_view(),
            ),
            (*final(self) == XlogWriter {
                header_written: true,
                pending: final(self).pending,
                ..*old(self)
            }),
    {
        push_bytes(&mut self.pending, dir.filetype.as_slice());
        let mut version_lit: Vec<u8> = Vec::new();
        version_lit.push(48);
        version_lit.push(46);
        version_lit.push(49);
        version_lit.push(50);
        version_lit.push(10);
        proof {
            assert(version_lit@ =~= spec_version());
        }
        push_bytes(&mut self.pending, version_lit.as_slice());
        let created = created_by_line();
        push_bytes(&mut self.pending, created.as_slice());
        let vprefix = version_prefix();
        push_bytes(&mut self.pending, vprefix.as_slice());
        push_bytes(&mut self.pending, version);
        self.pending.push(10);
        let n = extra.len();
        let mut i: usize = 0;
        proof {
            assert(spec_concat(extra.deep_view().subrange(0, 0)) =~= Seq::<u8>::empty());
            assert(self.pending@ =~= dir.filetype@ + spec_version() + spec_created_by_line()
                + spec_version_line(version@) + spec_concat(extra.deep_view().subrange(0, 0)));
        }
        while i < n
            invariant
                i <= n,
                n == extra@.len(),
                extra.deep_view().len() == n,
                (*self == XlogWriter { pending: self.pending, ..*old(self) }),
                self.pending@ == dir.filetype@ + spec_version() + spec_created_by_line()
                    + spec_version_line(version@) + spec_concat(
                    extra.deep_view().subrange(0, i as int),
                ),
            decreases n - i,
        {
            push_bytes(&mut self.pending, extra[i].as_slice());
            proof {
                let dv = extra.deep_view();
                assert(dv.subrange(0, i + 1).drop_last() =~= dv.subrange(0, i as int));
                assert(dv.subrange(0, i + 1).last() == dv[i as int]);
                assert(dv[i as int] == extra@[i as int]@);
                lemma_concat_push(dv.subrange(0, i as int), dv[i as int]);
                assert(self.pending@ =~= dir.filetype@ + spec_version() + spec_created_by_line()
                    + spec_version_line(version@) + spec_concat(dv.subrange(0, i + 1)));
            }
            i = i + 1;
        }
        self.pending.push(10);
        self.header_written = true;
        proof {
            let dv = extra.deep_view();
            assert(dv.subrange(0, n as int) =~= dv);
            let hs = spec_std_headers(version@) + dv;
            assert(hs.drop_first().drop_first() =~= dv);
            lemma_concat_first(hs);
            lemma_concat_first(hs.drop_first());
            assert(hs[0] == spec_created_by_line());
            assert(hs.drop_first()[0] == spec_version_line(version@));
            assert(self.pending@ =~= spec_header_block(dir.filetype@, hs));
        }
    }

    /// Append a row: stamp the writer's category onto an uncategorized
    /// tag, assign the next dense LSN, default the SCN to the LSN, stamp
    /// the clock, seal both checksums, and queue the framed bytes.  A
    /// writer poisoned by a failed flush refuses until the file has been
    /// truncated back to its confirmed length.
    pub fn append_row(&mut self, row: &mut Row, tm: u64) -> (r: Result<(), LogError>)
        requires
            old(self).wf(),
            old(self).header_written,
            old(row).wf(),
            old(self).next_lsn + old(self).wet@.len() + 1 <= i64::MAX,
            old(self).offset + spec_sum(old(self).wet_rows@) + 50 + old(row).len <= u64::MAX,
        ensures
            final(self).wf(),
            r is Err <==> old(self).truncate_before_write,
            r is Err ==> r == Err::<(), LogError>(LogError::Poisoned) && *final(self) == *old(self)
                && *final(row) == *old(row),
            r is Ok ==> {
                &&& final(row).tag == (if old(row).tag & !0x3fffu16 == 0 {
                    old(row).tag | old(self).tag_mask
                } else {
                    old(row).tag
                })
                &&& final(row).lsn == old(self).next_lsn + old(self).wet@.len()
                &&& final(row).scn == (if old(row).scn == 0 {
                    final(row).lsn
                } else {
                    old(row).scn
                })
                &&& final(row).tm == tm
                &&& final(row).shard_id == old(row).shard_id
                &&& final(row).aux == old(row).aux
                &&& final(row).data == old(row).data
                &&& final(row).len == old(row).len
                &&& final(row).wf()
                &&& final(row).crc_valid()
                &&& final(self).pending@ == old(self).pending@ + spec_marker_bytes()
                    + spec_row_bytes(final(row)@)
                &&& final(self).wet_rows@ == old(self).wet_rows@.push((50 + old(row).len) as u32)
                &&& final(self).wet@ == old(self).wet@.push(final(row)@)
                &&& final(self).next_lsn == old(self).next_lsn
                &&& final(self).offset == old(self).offset
                &&& final(self).sync_offset == old(self).sync_offset
                &&& final(self).header_written
                &&& !final(self).truncate_before_write
                &&& final(self).tag_mask == old(self).tag_mask
            },
    {
        if self.truncate_before_write {
            return Err(LogError::Poisoned);
        }
        if row.tag & !TAG_MASK == 0 {
            row.tag = row.tag | self.tag_mask;
        }
        let wl = self.wet_rows.len();
        row.lsn = self.next_lsn + wl as i64;
        if row.scn == 0 {
            row.scn = row.lsn;
        }
        row.tm = tm;
        row.update_crc();
        let mut marker = u32_to_le_bytes(MARKER);
        self.pending.append(&mut marker);
        let mut bytes = row.write();
        self.pending.append(&mut bytes);
        self.wet_rows.push(50 + row.len);
        proof {
            lemma_sum_push(old(self).wet_rows@, (50 + old(row).len) as u32);
        }
        self.wet = Ghost(self.wet@.push(row@));
        proof {
            assert forall|i: int| 0 <= i < self.wet@.len() implies {
                &&& (#[trigger] self.wet@[i]).wf()
                &&& self.wet@[i].crc_valid()
                &&& self.wet@[i].lsn == self.next_lsn + i
                &&& self.wet_rows@[i] == 50 + self.wet@[i].len
            } by {
                if i < old(self).wet@.len() {
                    assert(self.wet@[i] == old(self).wet@[i]);
                    assert(self.wet_rows@[i] == old(self).wet_rows@[i]);
                }
            }
        }
        Ok(())
    }

    /// Group commit: the caller has moved the pending bytes to the file
    /// and reports how the flush went.  On success every wet row is
    /// confirmed.  On failure the rows that fit within the file's measured
    /// length count as written, the rest are lost, and the writer is
    /// poisoned until the file is truncated back to the confirmed length.
    /// Returns the LSN of the last confirmed row, and the offset from
    /// which the caller should start a best-effort range sync, when one
    /// is due.
    pub fn confirm_write(&mut self, st: FlushStatus) -> (r: (i64, Option<u64>))
        requires
            old(self).wf(),
            !old(self).truncate_before_write,
        ensures
            final(self).wf(),
            final(self).pending == old(self).pending,
            final(self).header_written == old(self).header_written,
            final(self).inprogress == old(self).inprogress,
            final(self).tag_mask == old(self).tag_mask,
            old(self).wet_rows@.len() == 0 ==> *final(self) == *old(self) && r == (
                (old(self).next_lsn - 1) as i64,
                None::<u64>,
            ),
            old(self).wet_rows@.len() > 0 ==> ({
                let k = (match st {
                    FlushStatus::Flushed => old(self).wet_rows@.len() as int,
                    FlushStatus::FlushFailed(flen) => spec_kept(
                        old(self).wet_rows@,
                        flen - old(self).offset,
                    ),
                });
                let newoff = old(self).offset + spec_sum(old(self).wet_rows@.subrange(0, k));
                let due = newoff - old(self).sync_offset > SYNC_WINDOW;
                &&& 0 <= k <= old(self).wet_rows@.len()
                &&& final(self).truncate_before_write == (st is FlushFailed)
                &&& final(self).next_lsn == old(self).next_lsn + k
                &&& final(self).offset == newoff
                &&& final(self).wet_rows@.len() == 0
                &&& final(self).wet@.len() == 0
                &&& final(self).sync_offset == (if due {
                    final(self).offset
                } else {
                    old(self).sync_offset
                })
                &&& r.0 == final(self).next_lsn - 1
                &&& r.1 == (if due {
                    Some(old(self).sync_offset)
                } else {
                    None::<u64>
                })
            }),
    {
        let n = self.wet_rows.len();
        if n == 0 {
            return (self.next_lsn - 1, None);
        }
        match st {
            FlushStatus::Flushed => {},
            FlushStatus::FlushFailed(flen) => {
                self.truncate_before_write = true;
                let ghost wet0 = self.wet_rows@;
                let cut = kept_prefix(&self.wet_rows, self.offset, flen);
                self.wet_rows.truncate(cut);
                self.wet = Ghost(self.wet@.subrange(0, cut as int));
                proof {
                    assert(self.wet_rows@ =~= wet0.subrange(0, cut as int));
                }
            },
        }
        let k = self.wet_rows.len();
        let ghost kept = self.wet_rows@;
        let mut total: u64 = 0;
        let mut i: usize = 0;
        proof {
            assert(kept.subrange(0, 0) =~= Seq::<u32>::empty());
            lemma_sum_prefix_le(old(self).wet_rows@, k as int);
            lemma_sum_nonneg(kept);
        }
        while i < k
            invariant
                0 <= i <= k,
                k == kept.len(),
                self.wet_rows@ == kept,
                self.offset + spec_sum(kept) <= u64::MAX,
                total == spec_sum(kept.subrange(0, i as int)),
            decreases k - i,
        {
            proof {
                lemma_sum_prefix_le(kept, i + 1);
                lemma_sum_nonneg(kept.subrange(0, i + 1));
                assert(kept.subrange(0, i + 1).drop_last() =~= kept.subrange(0, i as int));
            }
            total = total + self.wet_rows[i] as u64;
            i = i + 1;
        }
        proof {
            assert(kept.subrange(0, k as int) =~= kept);
        }
        self.next_lsn = self.next_lsn + k as i64;
        self.offset = self.offset + total;
        self.wet_rows.clear();
        self.wet = Ghost(Seq::empty());
        proof {
            assert(spec_sum(self.wet_rows@) == 0);
        }
        let r1: Option<u64>;
        if self.offset - self.sync_offset > SYNC_WINDOW {
            r1 = Some(self.sync_offset);
            self.sync_offset = self.offset;
        } else {
            r1 = None;
        }
        (self.next_lsn - 1, r1)
    }

    /// Queue the end-of-file marker, written on clean close.
    pub fn write_eof_marker(&mut self)
        ensures
            final(self).pending@ == old(self).pending@ + spec_eof_marker_bytes(),
            (*final(self) == XlogWriter { pending: final(self).pending, ..*old(self) }),
            final(self).wf() == old(self).wf(),
    {
        let mut marker = u32_to_le_bytes(EOF_MARKER);
        self.pending.append(&mut marker);
    }

    /// Leave the poisoned state: the caller must truncate the file to the
    /// returned confirmed length and seek there before the next append.
    /// Bytes still pending are discarded; they belong to lost rows.
    pub fn recover_truncate(&mut self) -> (off: u64)
        requires
            old(self).wf(),
            old(self).truncate_before_write,
            old(self).wet_rows@.len() == 0,
        ensures
            final(self).wf(),
            off == old(self).offset,
            !final(self).truncate_before_write,
            final(self).pending@.len() == 0,
            (*final(self) == XlogWriter {
                truncate_before_write: false,
                pending: final(self).pending,
                ..*old(self)
            }),
    {
        self.pending.clear();
        self.truncate_before_write = false;
        self.offset
    }

    /// Take the bytes that are due to be written to the file.
    pub fn take_pending(&mut self) -> (out: Vec<u8>)
        ensures
            out@ == old(self).pending@,
            final(self).pending@.len() == 0,
            (*final(self) == XlogWriter { pending: final(self).pending, ..*old(self) }),
            final(self).wf() == old(self).wf(),
    {
        let out = slice_to_vec(self.pending.as_slice());
        self.pending.clear();
        out
    }
}

/// P3, monotonic LSNs: the unconfirmed rows of a well-formed writer carry
/// exactly the LSNs `next_lsn, next_lsn + 1, ...`, with no gaps; appending
/// extends the run by one, and a confirm moves `next_lsn` past it.
pub proof fn lemma_lsn_dense(w: XlogWriter)
    requires
        w.wf(),
    ensures
        forall|i: int| 0 <= i < w.wet@.len() ==> (#[trigger] w.wet@[i]).lsn == w.next_lsn + i,
        forall|i: int, j: int|
            0 <= i < j < w.wet@.len() ==> (#[trigger] w.wet@[i]).lsn < (#[trigger] w.wet@[j]).lsn,
{
}

/// The page-cache window the writer keeps while advising the kernel: the
/// trailing 128 KiB plus the tail modulo the page size.  For a file of
/// length `end`, the length of the prefix whose cache may be dropped.
pub fn fadvise_window(end: u64) -> (r: Option<u64>)
    ensures
        end > 135166 ==> r == Some((end - (131072 + end % 4096)) as u64),
        end <= 135166 ==> r is None,
{
    if end > 135166 {
        Some(end - (131072 + end % 4096))
    } else {
        None
    }
}

/// Category stamping: a tag without category bits receives exactly the
/// writer's category, and its kind bits are untouched.
pub proof fn lemma_category_stamped(tag: u16, mask: u16)
    requires
        tag & !0x3fffu16 == 0,
        mask == 0x4000 || mask == 0x8000 || mask == 0xc000,
    ensures
        (tag | mask) & !0x3fffu16 == mask,
        (tag | mask) & 0x3fffu16 == tag & 0x3fffu16,
{
    assert(((tag & !0x3fffu16 == 0) && (mask == 0x4000 || mask == 0x8000 || mask == 0xc000)) ==> (
    ((tag | mask) & !0x3fffu16 == mask) && ((tag | mask) & 0x3fffu16 == tag & 0x3fffu16)))
        by (bit_vector);
}

/// The framed image of a row sequence: each row behind its marker.
pub open spec fn spec_rows_bytes(rows: Seq<RowV>) -> Seq<u8>
    decreases rows.len(),
{
    if rows.len() == 0 {
        Seq::empty()
    } else {
        spec_rows_bytes(rows.drop_last()) + spec_marker_bytes() + spec_row_bytes(rows.last())
    }
}

/// Peeling the first framed row off the image.
pub proof fn lemma_rows_bytes_first(rows: Seq<RowV>)
    requires
        rows.len() > 0,
    ensures
        spec_rows_bytes(rows) == spec_marker_bytes() + spec_row_bytes(rows[0]) + spec_rows_bytes(
            rows.drop_first(),
        ),
    decreases rows.len(),
{
    if rows.len() == 1 {
        assert(rows.drop_last() =~= Seq::<RowV>::empty());
        assert(rows.drop_first() =~= Seq::<RowV>::empty());
        assert(spec_rows_bytes(rows) =~= spec_marker_bytes() + spec_row_bytes(rows[0])
            + spec_rows_bytes(rows.drop_first()));
    } else {
        lemma_rows_bytes_first(rows.drop_last());
        assert(rows.drop_last().drop_first() =~= rows.drop_first().drop_last());
        assert(rows.drop_last()[0] == rows[0]);
        assert(rows.drop_first().last() == rows.last());
        assert((spec_marker_bytes() + spec_row_bytes(rows[0]) + spec_rows_bytes(
            rows.drop_first().drop_last(),
        )) + spec_marker_bytes() + spec_row_bytes(rows.last()) =~= spec_marker_bytes()
            + spec_row_bytes(rows[0]) + (spec_rows_bytes(rows.drop_first().drop_last())
            + spec_marker_bytes() + spec_row_bytes(rows.drop_first().last())));
    }
}

/// Every row of the sequence is well formed and checksum-valid.
pub open spec fn spec_rows_valid(rows: Seq<RowV>) -> bool {
    forall|i: int|
        0 <= i < rows.len() ==> (#[trigger] rows[i]).wf() && rows[i].crc_valid()
}

/// Reading the stream to its end: the rows it yields, and how it stops.
pub open spec fn spec_read_all(s: Seq<u8>, pos: int) -> (Seq<RowV>, RowOutcome)
    decreases s.len() - pos,
{
    match spec_read_row_at(s, pos) {
        RowOutcome::Row { row, at } => {
            if pos < at <= s.len() {
                let rest = spec_read_all(s, at);
                (seq![row] + rest.0, rest.1)
            } else {
                (Seq::empty(), RowOutcome::Fail { err: LogError::ShortRead })
            }
        },
        RowOutcome::End { at } => (Seq::empty(), RowOutcome::End { at }),
        RowOutcome::Fail { err } => (Seq::empty(), RowOutcome::Fail { err }),
    }
}

/// A row outcome always advances the cursor and stays inside the buffer.
pub proof fn lemma_read_row_advances(s: Seq<u8>, pos: int, row: RowV, at: int)
    requires
        0 <= pos <= s.len(),
        spec_read_row_at(s, pos) == (RowOutcome::Row { row, at }),
    ensures
        pos + 50 <= at <= s.len(),
        at == pos + 50 + row.len,
        row.wf(),
        row.crc_valid(),
{
    let parsed = spec_row_read(s, pos + 4);
    assert(parsed is Ok);
    lemma_row_read_ok(s, pos + 4, parsed->Ok_0.0, parsed->Ok_0.1);
}

/// P1, the reader's half: a file region holding exactly the framed images
/// of valid rows, closed by the end-of-file marker or by the file's end,
/// reads back as exactly those rows followed by a clean end.
pub proof fn lemma_read_rows(s: Seq<u8>, pos: int, rows: Seq<RowV>, tail: Seq<u8>)
    requires
        0 <= pos <= s.len(),
        spec_rows_valid(rows),
        s.subrange(pos, s.len() as int) == spec_rows_bytes(rows) + tail,
        tail == spec_eof_marker_bytes() || tail == Seq::<u8>::empty(),
    ensures
        spec_read_all(s, pos) == (rows, RowOutcome::End { at: s.len() as int }),
    decreases rows.len(),
{
    lemma_auto_spec_u32_to_from_le_bytes();
    let region = s.subrange(pos, s.len() as int);
    if rows.len() == 0 {
        assert(spec_rows_bytes(rows) =~= Seq::<u8>::empty());
        assert(region =~= tail);
        if tail == Seq::<u8>::empty() {
            assert(s.len() == pos);
        } else {
            assert(s.len() - pos == 4);
            assert(s.subrange(pos, pos + 4) =~= region);
            assert(spec_u32_from_le_bytes(spec_eof_marker_bytes()) == EOF_MARKER);
        }
    } else {
        lemma_rows_bytes_first(rows);
        let r0 = rows[0];
        assert(r0.wf() && r0.crc_valid());
        let span = 50 + r0.len as int;
        assert(spec_row_bytes(r0).len() == 46 + r0.len) by {
            crate::row::lemma_tail_fields(r0);
        }
        assert(region.len() == spec_rows_bytes(rows).len() + tail.len());
        assert(region.len() >= span);
        assert forall|a: int, c: int|
            0 <= a <= c <= region.len() implies #[trigger] region.subrange(a, c) == s.subrange(
            pos + a,
            pos + c,
        ) by {
            s.lemma_slice_of_slice(pos, s.len() as int, a, c);
        }
        assert(region.subrange(0, 4) =~= spec_marker_bytes());
        assert(s.subrange(pos, pos + 4) == spec_marker_bytes());
        assert(spec_u32_from_le_bytes(spec_marker_bytes()) == MARKER);
        assert(MARKER != EOF_MARKER) by {
            assert(spec_u32_from_le_bytes(spec_u32_to_le_bytes(MARKER)) == MARKER);
        }
        assert(region.subrange(4, span) =~= spec_row_bytes(r0));
        assert(s.subrange(pos + 4, pos + 4 + 46 + r0.len) == spec_row_bytes(r0));
        crate::row::lemma_row_parse_at(s, pos + 4, r0);
        let at = pos + span;
        assert(spec_read_row_at(s, pos) == (RowOutcome::Row { row: r0, at }));
        assert(region.subrange(span, region.len() as int) =~= spec_rows_bytes(rows.drop_first())
            + tail);
        assert(s.subrange(at, s.len() as int) == spec_rows_bytes(rows.drop_first()) + tail);
        lemma_read_rows(s, at, rows.drop_first(), tail);
        assert(seq![r0] + rows.drop_first() =~= rows);
    }
}

/// A line of the header block: at least one byte, then the newline that
/// ends it, and no newline anywhere else.
pub open spec fn spec_header_line_wf(l: Seq<u8>) -> bool {
    &&& l.len() >= 2
    &&& l.last() == 10
    &&& forall|j: int| 0 <= j < l.len() - 1 ==> l[j] != 10
}

pub open spec fn spec_headers_wf(hs: Seq<Seq<u8>>) -> bool {
    forall|i: int| 0 <= i < hs.len() ==> spec_header_line_wf(#[trigger] hs[i])
}

/// An encoded header block parses back to its own lines, whatever follows
/// the blank line.
pub proof fn lemma_parse_headers_encoded(s: Seq<u8>, pos: int, hs: Seq<Seq<u8>>)
    requires
        0 <= pos,
        pos + spec_concat(hs).len() + 1 <= s.len(),
        spec_headers_wf(hs),
        s.subrange(pos, pos + spec_concat(hs).len() + 1) == spec_concat(hs) + seq![10u8],
    ensures
        spec_parse_headers(s, pos) == Some((hs, pos + spec_concat(hs).len() + 1)),
    decreases hs.len(),
{
    let cl = spec_concat(hs).len() as int;
    let region = s.subrange(pos, pos + cl + 1);
    assert forall|a: int, c: int|
        0 <= a <= c <= cl + 1 implies #[trigger] region.subrange(a, c) == s.subrange(
        pos + a,
        pos + c,
    ) by {
        s.lemma_slice_of_slice(pos, pos + cl + 1, a, c);
    }
    if hs.len() == 0 {
        assert(spec_concat(hs) =~= Seq::<u8>::empty());
        assert(region.len() == 1);
        assert(s[pos] == 10) by {
            assert(region[0] == (spec_concat(hs) + seq![10u8])[0]);
        }
        crate::xlog_dir::lemma_find_byte_at(s, 10, pos, pos);
        assert(s.subrange(pos, pos + 1) =~= seq![10u8]);
    } else {
        lemma_concat_first(hs);
        let l0 = hs[0];
        assert(spec_header_line_wf(l0));
        let n0 = l0.len() as int;
        assert(region.subrange(0, n0) =~= l0);
        assert(s.subrange(pos, pos + n0) == l0);
        assert forall|j: int| pos <= j < pos + n0 - 1 implies s[j] != 10 by {
            assert(l0[j - pos] != 10);
            assert(region[j - pos] == l0[j - pos]);
            assert(region[j - pos] == s[j]);
        }
        assert(s[pos + n0 - 1] == 10) by {
            assert(region[n0 - 1] == l0[n0 - 1]);
            assert(l0.last() == 10);
        }
        crate::xlog_dir::lemma_find_byte_at(s, 10, pos, pos + n0 - 1);
        let nl = pos + n0 - 1;
        assert(s.subrange(pos, nl + 1) == l0);
        assert(l0 != seq![10u8]) by {
            assert(l0.len() >= 2);
        }
        let rest = hs.drop_first();
        assert(spec_headers_wf(rest)) by {
            assert(forall|i: int| 0 <= i < rest.len() ==> #[trigger] rest[i] == hs[i + 1]);
        }
        assert(region.subrange(n0, cl + 1) =~= spec_concat(rest) + seq![10u8]);
        assert(s.subrange(pos + n0, pos + n0 + spec_concat(rest).len() + 1) == spec_concat(rest)
            + seq![10u8]);
        lemma_parse_headers_encoded(s, pos + n0, rest);
        assert(seq![l0] + rest =~= hs);
    }
}

/// P1: a file the writer laid out — prelude, framed valid rows, and the
/// end-of-file marker when the file was closed cleanly — opens to its own
/// filetype and header lines, and reads back as exactly its rows followed
/// by a clean end of stream.
pub proof fn lemma_log_roundtrip(
    ft: Seq<u8>,
    hs: Seq<Seq<u8>>,
    rows: Seq<RowV>,
    closed: bool,
    s: Seq<u8>,
)
    requires
        ft == crate::xlog_dir::spec_xlog_filetype() || ft == crate::xlog_dir::spec_snap_filetype(),
        spec_headers_wf(hs),
        spec_rows_valid(rows),
        s == spec_header_block(ft, hs) + spec_rows_bytes(rows) + (if closed {
            spec_eof_marker_bytes()
        } else {
            Seq::<u8>::empty()
        }),
    ensures
        spec_open(s) == Ok::<(Seq<u8>, Seq<Seq<u8>>, int), LogError>(
            (ft, hs, spec_header_block(ft, hs).len() as int),
        ),
        spec_read_all(s, spec_header_block(ft, hs).len() as int) == (
            rows,
            RowOutcome::End { at: s.len() as int },
        ),
{
    lemma_auto_spec_u32_to_from_le_bytes();
    let block = spec_header_block(ft, hs);
    let bl = block.len() as int;
    let cl = spec_concat(hs).len() as int;
    assert(ft.len() == 5);
    assert(bl == 10 + cl + 1);
    assert(bl <= s.len());
    assert(s.subrange(0, 5) =~= ft);
    assert(s.subrange(5, 10) =~= spec_version());
    assert(s.len() > 10);
    assert(s.subrange(10, 10 + cl + 1) =~= spec_concat(hs) + seq![10u8]);
    lemma_parse_headers_encoded(s, 10, hs);
    assert(ft != crate::xlog_dir::spec_xlog_filetype() || s.subrange(0, 5)
        == crate::xlog_dir::spec_xlog_filetype());
    assert(spec_open(s) is Ok);
    let tail: Seq<u8> = if closed {
        spec_eof_marker_bytes()
    } else {
        Seq::<u8>::empty()
    };
    assert(s.subrange(bl, s.len() as int) =~= spec_rows_bytes(rows) + tail);
    lemma_read_rows(s, bl, rows, tail);
}

/// How many leading rows lie entirely within the first `n` bytes of the
/// row region.
pub open spec fn spec_full_rows(rows: Seq<RowV>, n: int) -> int
    decreases rows.len(),
{
    if rows.len() == 0 {
        0
    } else if n < 50 + rows[0].len {
        0
    } else {
        1 + spec_full_rows(rows.drop_first(), n - (50 + rows[0].len))
    }
}

pub proof fn lemma_full_rows_bounds(rows: Seq<RowV>, n: int)
    ensures
        0 <= spec_full_rows(rows, n) <= rows.len(),
    decreases rows.len(),
{
    if rows.len() > 0 && n >= 50 + rows[0].len {
        lemma_full_rows_bounds(rows.drop_first(), n - (50 + rows[0].len));
    }
}

/// P4, torn-tail safety: truncate a well-formed row region at any byte
/// count `n` not past its end, and reading yields exactly the rows whose
/// whole image lies within the cut; the stream then ends cleanly when the
/// cut falls on a row boundary, and with a detectable error otherwise —
/// never with an invented row.
pub proof fn lemma_torn_tail(s: Seq<u8>, pos: int, rows: Seq<RowV>)
    requires
        0 <= pos <= s.len(),
        spec_rows_valid(rows),
        s.len() - pos <= spec_rows_bytes(rows).len(),
        s.subrange(pos, s.len() as int) == spec_rows_bytes(rows).subrange(0, s.len() - pos),
    ensures
        spec_read_all(s, pos).0 == rows.subrange(0, spec_full_rows(rows, s.len() - pos)),
        s.len() - pos == spec_rows_bytes(rows.subrange(0, spec_full_rows(rows, s.len() - pos))).len()
            ==> spec_read_all(s, pos).1 == (RowOutcome::End { at: s.len() as int }),
        s.len() - pos != spec_rows_bytes(rows.subrange(0, spec_full_rows(rows, s.len() - pos))).len()
            ==> spec_read_all(s, pos).1 is Fail,
    decreases rows.len(),
{
    lemma_auto_spec_u32_to_from_le_bytes();
    let n = s.len() - pos;
    let region = s.subrange(pos, s.len() as int);
    let full = spec_rows_bytes(rows);
    assert forall|a: int, c: int|
        0 <= a <= c <= n implies #[trigger] region.subrange(a, c) == s.subrange(pos + a, pos + c) by {
        s.lemma_slice_of_slice(pos, s.len() as int, a, c);
    }
    assert forall|a: int, c: int|
        0 <= a <= c <= n implies #[trigger] full.subrange(0, n).subrange(a, c) == full.subrange(
        a,
        c,
    ) by {
        full.lemma_slice_of_slice(0, n, a, c);
    }
    if rows.len() == 0 {
        assert(full =~= Seq::<u8>::empty());
        assert(n == 0);
        assert(rows.subrange(0, 0) =~= rows);
        assert(spec_rows_bytes(rows.subrange(0, 0)).len() == 0);
    } else {
        lemma_rows_bytes_first(rows);
        let r0 = rows[0];
        assert(r0.wf() && r0.crc_valid());
        crate::row::lemma_tail_fields(r0);
        assert(spec_row_bytes(r0).len() == 46 + r0.len);
        let span = 50 + r0.len as int;
        let rest = rows.drop_first();
        assert(spec_rows_valid(rest)) by {
            assert(forall|i: int| 0 <= i < rest.len() ==> #[trigger] rest[i] == rows[i + 1]);
        }
        if n == 0 {
            assert(spec_full_rows(rows, 0) == 0);
            assert(rows.subrange(0, 0) =~= Seq::<RowV>::empty());
            assert(spec_read_all(s, pos).0 =~= rows.subrange(0, 0));
        } else if n < 4 {
            assert(spec_full_rows(rows, n) == 0);
            assert(rows.subrange(0, 0) =~= Seq::<RowV>::empty());
            assert(spec_read_all(s, pos).1 is Fail);
            assert(spec_rows_bytes(rows.subrange(0, 0)).len() == 0);
        } else {
            assert(region.subrange(0, 4) =~= full.subrange(0, 4));
            assert(full.subrange(0, 4) =~= spec_marker_bytes());
            assert(s.subrange(pos, pos + 4) == spec_marker_bytes());
            assert(spec_u32_from_le_bytes(spec_marker_bytes()) == MARKER);
            assert(MARKER != EOF_MARKER) by {
                assert(spec_u32_from_le_bytes(spec_u32_to_le_bytes(MARKER)) == MARKER);
            }
            if n < span {
                assert(spec_full_rows(rows, n) == 0);
                assert(rows.subrange(0, 0) =~= Seq::<RowV>::empty());
                assert(spec_rows_bytes(rows.subrange(0, 0)).len() == 0);
                if n - 4 < 46 {
                    assert(spec_row_read(s, pos + 4) == Err::<(RowV, int), LogError>(
                        LogError::ShortRead,
                    ));
                } else {
                    assert(region.subrange(4, n) =~= spec_row_bytes(r0).subrange(0, n - 4)) by {
                        full.lemma_slice_of_slice(0, n, 4, n);
                        assert(full.subrange(4, n) =~= spec_row_bytes(r0).subrange(0, n - 4));
                    }
                    assert(s.subrange(pos + 4, s.len() as int) == spec_row_bytes(r0).subrange(
                        0,
                        n - 4,
                    ));
                    crate::row::lemma_row_read_torn(s, pos + 4, r0);
                }
                assert(spec_read_all(s, pos).1 is Fail);
            } else {
                assert(region.subrange(4, span) =~= spec_row_bytes(r0));
                assert(s.subrange(pos + 4, pos + 4 + 46 + r0.len) == spec_row_bytes(r0));
                crate::row::lemma_row_parse_at(s, pos + 4, r0);
                let at = pos + span;
                assert(spec_read_row_at(s, pos) == (RowOutcome::Row { row: r0, at }));
                assert(region.subrange(span, n) =~= spec_rows_bytes(rest).subrange(0, n - span))
                    by {
                    full.lemma_slice_of_slice(0, n, span, n);
                    assert(full.subrange(span, n) =~= spec_rows_bytes(rest).subrange(0, n - span));
                }
                assert(s.subrange(at, s.len() as int) == spec_rows_bytes(rest).subrange(
                    0,
                    n - span,
                ));
                lemma_torn_tail(s, at, rest);
                let k = spec_full_rows(rest, n - span);
                lemma_full_rows_bounds(rest, n - span);
                assert(spec_full_rows(rows, n) == 1 + k);
                assert(seq![r0] + rest.subrange(0, k) =~= rows.subrange(0, 1 + k));
                lemma_rows_bytes_first(rows.subrange(0, 1 + k));
                assert(rows.subrange(0, 1 + k)[0] == r0);
                assert(rows.subrange(0, 1 + k).drop_first() =~= rest.subrange(0, k));
                assert(spec_rows_bytes(rows.subrange(0, 1 + k)).len() == span + spec_rows_bytes(
                    rest.subrange(0, k),
                ).len());
            }
        }
    }
}

} // verus!
