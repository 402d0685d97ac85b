//! A directory of log files: file names carry the starting LSN of each file
//! as a zero-padded decimal, and recovery picks a file by LSN or by a
//! shard's SCN header.  Listing the directory is the caller's part; every
//! rule about names, ordering and selection lives here.

use vstd::prelude::*;
use vstd::seq_lib::*;
use vstd::slice::{slice_subrange, slice_to_vec};

verus! {

/// Value of a run of decimal digit bytes, most significant first.
pub open spec fn spec_digits_val(s: Seq<u8>) -> int
    decreases s.len(),
{
    if s.len() == 0 {
        0
    } else {
        spec_digits_val(s.drop_last()) * 10 + (s.last() - 48)
    }
}

/// Every byte is an ASCII digit.
pub open spec fn spec_all_digits(s: Seq<u8>) -> bool {
    forall|i: int| 0 <= i < s.len() ==> 48 <= #[trigger] s[i] <= 57
}

/// What a decimal literal parses to: an optional leading minus, then one or
/// more digits; `None` on anything else or on a value outside `i64`.
pub open spec fn spec_parse_i64(s: Seq<u8>) -> Option<i64> {
    if s.len() >= 2 && s[0] == 45 {
        let d = s.subrange(1, s.len() as int);
        if spec_all_digits(d) && spec_digits_val(d) <= 0x8000000000000000 {
            Some((-spec_digits_val(d)) as i64)
        } else {
            None
        }
    } else if s.len() >= 1 && spec_all_digits(s) && spec_digits_val(s) <= i64::MAX {
        Some(spec_digits_val(s) as i64)
    } else {
        None
    }
}

proof fn lemma_digits_val_nonneg(s: Seq<u8>)
    requires
        spec_all_digits(s),
    ensures
        spec_digits_val(s) >= 0,
    decreases s.len(),
{
    if s.len() > 0 {
        assert(spec_all_digits(s.drop_last()));
        lemma_digits_val_nonneg(s.drop_last());
    }
}

/// A longer digit prefix never has a smaller value.
proof fn lemma_digits_val_mono(s: Seq<u8>, k: int)
    requires
        spec_all_digits(s),
        0 <= k <= s.len(),
    ensures
        spec_digits_val(s) >= spec_digits_val(s.subrange(0, k)),
    decreases s.len() - k,
{
    if k < s.len() {
        let t = s.subrange(0, k + 1);
        assert(t.drop_last() =~= s.subrange(0, k));
        assert(spec_all_digits(s.subrange(0, k)));
        lemma_digits_val_nonneg(s.subrange(0, k));
        assert(spec_digits_val(t) == spec_digits_val(s.subrange(0, k)) * 10 + (s[k] - 48));
        lemma_digits_val_mono(s, k + 1);
    } else {
        assert(s.subrange(0, k) =~= s);
    }
}

/// Parse the magnitude of a decimal literal: all of `s` must be digits and
/// the value must stay within `limit`.
fn parse_magnitude(s: &[u8], limit: u64) -> (r: Option<u64>)
    requires
        922337203685477580 <= limit,
    ensures
        match r {
            Some(v) => spec_all_digits(s@) && s@.len() >= 1 && v == spec_digits_val(s@)
                && v <= limit,
            None => s@.len() == 0 || !spec_all_digits(s@) || spec_digits_val(s@) > limit,
        },
{
    let n = s.len();
    if n == 0 {
        return None;
    }
    let mut acc: u64 = 0;
    let mut i: usize = 0;
    while i < n
        invariant
            0 <= i <= n,
            n == s@.len(),
            922337203685477580 <= limit,
            spec_all_digits(s@.subrange(0, i as int)),
            acc == spec_digits_val(s@.subrange(0, i as int)),
            acc <= limit,
        decreases n - i,
    {
        let b = s[i];
        if b < 48 || b > 57 {
            proof {
                assert(!spec_all_digits(s@));
            }
            return None;
        }
        let d = (b - 48) as u64;
        proof {
            assert(s@.subrange(0, i + 1).drop_last() =~= s@.subrange(0, i as int));
        }
        if acc > limit / 10 || acc * 10 > limit - d {
            proof {
                let p = s@.subrange(0, i + 1);
                assert(spec_all_digits(p));
                if acc <= limit / 10 {
                    assert(acc * 10 <= (limit / 10) * 10 <= limit);
                }
                assert(spec_digits_val(p) > limit);
                if spec_all_digits(s@) {
                    lemma_digits_val_mono(s@, i + 1);
                }
            }
            return None;
        }
        proof {
            assert(acc * 10 <= limit - d);
        }
        acc = acc * 10 + d;
        i = i + 1;
    }
    proof {
        assert(s@.subrange(0, n as int) =~= s@);
    }
    Some(acc)
}

/// Parse a decimal `i64`, exactly as `spec_parse_i64` states it.
pub fn parse_i64(s: &[u8]) -> (r: Option<i64>)
    ensures
        r == spec_parse_i64(s@),
{
    if s.len() >= 2 && s[0] == 45 {
        let d = slice_subrange(s, 1, s.len());
        match parse_magnitude(d, 0x8000000000000000) {
            Some(m) => {
                proof {
                    assert(0 - (m as int) >= i64::MIN);
                    assert(((-(m as int)) as i64) as int == 0 - (m as int)) by {
                        if m == 0x8000000000000000 {
                            assert((-(0x8000000000000000 as int)) as i64 == i64::MIN);
                        }
                    }
                }
                if m == 0x8000000000000000u64 {
                    Some(i64::MIN)
                } else {
                    Some(-(m as i64))
                }
            },
            None => None,
        }
    } else {
        match parse_magnitude(s, i64::MAX as u64) {
            Some(m) => Some(m as i64),
            None => None,
        }
    }
}

/// Index of the first occurrence of `b` at or past `pos`, or the length
/// when none occurs.
pub open spec fn spec_find_byte(s: Seq<u8>, b: u8, pos: int) -> int
    decreases s.len() - pos,
{
    if pos < 0 || pos >= s.len() {
        s.len() as int
    } else if s[pos] == b {
        pos
    } else {
        spec_find_byte(s, b, pos + 1)
    }
}

pub proof fn lemma_find_byte_bounds(s: Seq<u8>, b: u8, pos: int)
    requires
        0 <= pos <= s.len(),
    ensures
        pos <= spec_find_byte(s, b, pos) <= s.len(),
        forall|i: int| pos <= i < spec_find_byte(s, b, pos) ==> s[i] != b,
        spec_find_byte(s, b, pos) < s.len() ==> s[spec_find_byte(s, b, pos)] == b,
    decreases s.len() - pos,
{
    if pos < s.len() && s[pos] != b {
        lemma_find_byte_bounds(s, b, pos + 1);
    }
}

/// The first occurrence is where the first occurrence sits.
pub proof fn lemma_find_byte_at(s: Seq<u8>, b: u8, pos: int, k: int)
    requires
        0 <= pos <= k <= s.len(),
        forall|i: int| pos <= i < k ==> s[i] != b,
        k < s.len() ==> s[k] == b,
    ensures
        spec_find_byte(s, b, pos) == k,
{
    lemma_find_byte_bounds(s, b, pos);
    let f = spec_find_byte(s, b, pos);
    if f < k {
        assert(s[f] != b);
        assert(s[f] == b);
    }
    if f > k {
        assert(s[k] != b);
    }
}

/// Index of the first occurrence of `b` in a slice, or its length.
pub fn find_byte(s: &[u8], b: u8) -> (n: usize)
    ensures
        n as int == spec_find_byte(s@, b, 0),
        n <= s@.len(),
{
    let len = s.len();
    let mut n: usize = 0;
    while n < len
        invariant
            n <= len,
            len == s@.len(),
            forall|i: int| 0 <= i < n ==> s@[i] != b,
        decreases len - n,
    {
        if s[n] == b {
            proof {
                lemma_find_byte_at(s@, b, 0, n as int);
            }
            return n;
        }
        n = n + 1;
    }
    proof {
        lemma_find_byte_at(s@, b, 0, n as int);
    }
    n
}

/// What a directory entry name parses to under a suffix: the name splits at
/// its first dot, the part after the dot must equal the suffix, the part
/// before it must be a decimal LSN.
pub open spec fn spec_parse_name(name: Seq<u8>, suffix: Seq<u8>) -> Option<i64> {
    let dot = spec_find_byte(name, 46, 0);
    if dot >= name.len() {
        None
    } else if name.subrange(dot + 1, name.len() as int) != suffix {
        None
    } else {
        spec_parse_i64(name.subrange(0, dot))
    }
}

/// Do two byte strings hold the same bytes?
pub fn bytes_eq(a: &[u8], b: &[u8]) -> (r: bool)
    ensures
        r <==> a@ == b@,
{
    let n = a.len();
    if n != b.len() {
        proof {
            assert(a@.len() != b@.len());
        }
        return false;
    }
    let mut i: usize = 0;
    while i < n
        invariant
            i <= n,
            n == a@.len() == b@.len(),
            forall|j: int| 0 <= j < i ==> a@[j] == b@[j],
        decreases n - i,
    {
        if a[i] != b[i] {
            return false;
        }
        i = i + 1;
    }
    proof {
        assert(a@ =~= b@);
    }
    true
}

/// Parse one directory entry name against a suffix.
pub fn parse_name(name: &[u8], suffix: &[u8]) -> (r: Option<i64>)
    ensures
        r == spec_parse_name(name@, suffix@),
{
    let dot = find_byte(name, 46);
    if dot >= name.len() {
        return None;
    }
    let after = slice_subrange(name, dot + 1, name.len());
    if !bytes_eq(after, suffix) {
        return None;
    }
    parse_i64(slice_subrange(name, 0, dot))
}

/// The view of a list of scan entries: each name as its byte sequence.
pub open spec fn entries_view(v: Seq<(i64, Vec<u8>)>) -> Seq<(i64, Seq<u8>)> {
    v.map_values(|p: (i64, Vec<u8>)| (p.0, p.1@))
}

/// Insert an entry behind every entry whose LSN is not larger: the stable
/// insertion that `spec_sort_entries` is built from.
pub open spec fn spec_insert_entry(s: Seq<(i64, Seq<u8>)>, e: (i64, Seq<u8>)) -> Seq<(i64, Seq<u8>)>
    decreases s.len(),
{
    if s.len() == 0 {
        seq![e]
    } else if s[0].0 <= e.0 {
        seq![s[0]] + spec_insert_entry(s.drop_first(), e)
    } else {
        seq![e] + s
    }
}

/// Stable insertion sort by LSN.
pub open spec fn spec_sort_entries(s: Seq<(i64, Seq<u8>)>) -> Seq<(i64, Seq<u8>)>
    decreases s.len(),
{
    if s.len() == 0 {
        Seq::empty()
    } else {
        spec_insert_entry(spec_sort_entries(s.drop_last()), s.last())
    }
}

/// The entries a list of names yields under a suffix, in input order.
pub open spec fn spec_scan(names: Seq<Seq<u8>>, suffix: Seq<u8>) -> Seq<(i64, Seq<u8>)>
    decreases names.len(),
{
    if names.len() == 0 {
        Seq::empty()
    } else {
        spec_scan(names.drop_last(), suffix) + (match spec_parse_name(names.last(), suffix) {
            Some(lsn) => seq![(lsn, names.last())],
            None => Seq::empty(),
        })
    }
}

/// Nondecreasing by LSN.
pub open spec fn spec_sorted_by_lsn(s: Seq<(i64, Seq<u8>)>) -> bool {
    forall|i: int, j: int| 0 <= i < j < s.len() ==> #[trigger] s[i].0 <= #[trigger] s[j].0
}

/// Inserting where the first larger LSN sits is what `spec_insert_entry`
/// does.
proof fn lemma_insert_entry_at(s: Seq<(i64, Seq<u8>)>, e: (i64, Seq<u8>), j: int)
    requires
        0 <= j <= s.len(),
        forall|i: int| 0 <= i < j ==> s[i].0 <= e.0,
        j < s.len() ==> s[j].0 > e.0,
    ensures
        spec_insert_entry(s, e) == s.subrange(0, j) + seq![e] + s.subrange(j, s.len() as int),
    decreases s.len(),
{
    if s.len() == 0 {
        assert(spec_insert_entry(s, e) =~= s.subrange(0, j) + seq![e] + s.subrange(j, 0));
    } else if s[0].0 <= e.0 {
        let t = s.drop_first();
        lemma_insert_entry_at(t, e, j - 1);
        assert(t.subrange(0, j - 1) =~= s.subrange(1, j));
        assert(t.subrange(j - 1, t.len() as int) =~= s.subrange(j, s.len() as int));
        assert(seq![s[0]] + (s.subrange(1, j) + seq![e] + s.subrange(j, s.len() as int)) =~= s
            .subrange(0, j) + seq![e] + s.subrange(j, s.len() as int));
    } else {
        assert(j == 0);
        assert(seq![e] + s =~= s.subrange(0, 0) + seq![e] + s.subrange(0, s.len() as int));
    }
}

proof fn lemma_insert_entry_sorted(s: Seq<(i64, Seq<u8>)>, e: (i64, Seq<u8>))
    requires
        spec_sorted_by_lsn(s),
    ensures
        spec_sorted_by_lsn(spec_insert_entry(s, e)),
        spec_insert_entry(s, e).len() == s.len() + 1,
    decreases s.len(),
{
    if s.len() == 0 {
    } else if s[0].0 <= e.0 {
        let t = s.drop_first();
        assert(spec_sorted_by_lsn(t));
        lemma_insert_entry_sorted(t, e);
        let r = seq![s[0]] + spec_insert_entry(t, e);
        assert forall|i: int, j: int| 0 <= i < j < r.len() implies r[i].0 <= r[j].0 by {
            if i > 0 {
                assert(r[i] == spec_insert_entry(t, e)[i - 1]);
                assert(r[j] == spec_insert_entry(t, e)[j - 1]);
            } else {
                assert(r[j] == spec_insert_entry(t, e)[j - 1]);
                lemma_insert_entry_members(t, e, j - 1);
            }
        }
    } else {
    }
}

proof fn lemma_insert_entry_len(s: Seq<(i64, Seq<u8>)>, e: (i64, Seq<u8>))
    ensures
        spec_insert_entry(s, e).len() == s.len() + 1,
    decreases s.len(),
{
    if s.len() > 0 && s[0].0 <= e.0 {
        lemma_insert_entry_len(s.drop_first(), e);
    }
}

/// Every slot of an insertion holds the new entry or one of the old ones.
proof fn lemma_insert_entry_members(s: Seq<(i64, Seq<u8>)>, e: (i64, Seq<u8>), k: int)
    requires
        0 <= k < spec_insert_entry(s, e).len(),
    ensures
        spec_insert_entry(s, e).len() == s.len() + 1,
        spec_insert_entry(s, e)[k] == e || exists|i: int|
            0 <= i < s.len() && spec_insert_entry(s, e)[k] == s[i],
    decreases s.len(),
{
    lemma_insert_entry_len(s, e);
    if s.len() == 0 {
    } else if s[0].0 <= e.0 {
        if k > 0 {
            lemma_insert_entry_members(s.drop_first(), e, k - 1);
            if spec_insert_entry(s.drop_first(), e)[k - 1] != e {
                let i = choose|i: int|
                    0 <= i < s.drop_first().len() && spec_insert_entry(s.drop_first(), e)[k - 1]
                        == s.drop_first()[i];
                assert(s.drop_first()[i] == s[i + 1]);
            }
        }
    }
}

/// The sorted scan is sorted.
pub proof fn lemma_sort_entries_sorted(s: Seq<(i64, Seq<u8>)>)
    ensures
        spec_sorted_by_lsn(spec_sort_entries(s)),
        spec_sort_entries(s).len() == s.len(),
    decreases s.len(),
{
    if s.len() > 0 {
        lemma_sort_entries_sorted(s.drop_last());
        lemma_insert_entry_sorted(spec_sort_entries(s.drop_last()), s.last());
    }
}

/// Position of the first entry whose LSN is above the key.
fn lower_insert_pos(v: &Vec<(i64, Vec<u8>)>, key: i64) -> (j: usize)
    ensures
        j <= v@.len(),
        forall|i: int| 0 <= i < j ==> v@[i].0 <= key,
        j < v@.len() ==> v@[j as int].0 > key,
{
    let n = v.len();
    let mut j: usize = 0;
    while j < n
        invariant
            j <= n,
            n == v@.len(),
            forall|i: int| 0 <= i < j ==> v@[i].0 <= key,
        decreases n - j,
    {
        if v[j].0 > key {
            return j;
        }
        j = j + 1;
    }
    j
}

/// Insert an owned entry into a vector sorted by LSN, keeping input order
/// among equal LSNs.
fn insert_entry(v: &mut Vec<(i64, Vec<u8>)>, e: (i64, Vec<u8>))
    ensures
        entries_view(final(v)@) == spec_insert_entry(entries_view(old(v)@), (e.0, e.1@)),
{
    let ghost ev = (e.0, e.1@);
    let j = lower_insert_pos(v, e.0);
    proof {
        lemma_insert_entry_at(entries_view(v@), ev, j as int);
    }
    let ghost before = v@;
    v.insert(j, e);
    proof {
        assert(entries_view(v@) =~= entries_view(before).subrange(0, j as int) + seq![ev]
            + entries_view(before).subrange(j as int, before.len() as int));
    }
}

/// A directory of log files: the filetype literal its files begin with, the
/// suffix their names end with, and the directory's own name.
pub struct XLogDir {
    pub filetype: Vec<u8>,
    pub suffix: Vec<u8>,
    pub dirname: Vec<u8>,
}

/// "XLOG\n"
pub open spec fn spec_xlog_filetype() -> Seq<u8> {
    seq![88u8, 76, 79, 71, 10]
}

/// "SNAP\n"
pub open spec fn spec_snap_filetype() -> Seq<u8> {
    seq![83u8, 78, 65, 80, 10]
}

/// "xlog"
pub open spec fn spec_xlog_suffix() -> Seq<u8> {
    seq![120u8, 108, 111, 103]
}

/// "snap"
pub open spec fn spec_snap_suffix() -> Seq<u8> {
    seq![115u8, 110, 97, 112]
}

impl XLogDir {
    /// A directory of write-ahead log files.
    pub fn new_waldir(dirname: Vec<u8>) -> (d: XLogDir)
        ensures
            d.filetype@ == spec_xlog_filetype(),
            d.suffix@ == spec_xlog_suffix(),
            d.dirname@ == dirname@,
    {
        let mut filetype: Vec<u8> = Vec::new();
        filetype.push(88);
        filetype.push(76);
        filetype.push(79);
        filetype.push(71);
        filetype.push(10);
        let mut suffix: Vec<u8> = Vec::new();
        suffix.push(120);
        suffix.push(108);
        suffix.push(111);
        suffix.push(103);
        proof {
            assert(filetype@ =~= spec_xlog_filetype());
            assert(suffix@ =~= spec_xlog_suffix());
        }
        XLogDir { filetype, suffix, dirname }
    }

    /// A directory of snapshot files.
    pub fn new_snapdir(dirname: Vec<u8>) -> (d: XLogDir)
        ensures
            d.filetype@ == spec_snap_filetype(),
            d.suffix@ == spec_snap_suffix(),
            d.dirname@ == dirname@,
    {
        let mut filetype: Vec<u8> = Vec::new();
        filetype.push(83);
        filetype.push(78);
        filetype.push(65);
        filetype.push(80);
        filetype.push(10);
        let mut suffix: Vec<u8> = Vec::new();
        suffix.push(115);
        suffix.push(110);
        suffix.push(97);
        suffix.push(112);
        proof {
            assert(filetype@ =~= spec_snap_filetype());
            assert(suffix@ =~= spec_snap_suffix());
        }
        XLogDir { filetype, suffix, dirname }
    }

    /// Of the given directory entry names, the ones naming log files of this
    /// directory: parsed to their LSN and sorted by it, input order kept
    /// among equal LSNs.
    pub fn scan_dir(&self, names: &Vec<Vec<u8>>) -> (r: Vec<(i64, Vec<u8>)>)
        ensures
            entries_view(r@) == spec_sort_entries(spec_scan(names.deep_view(), self.suffix@)),
            spec_sorted_by_lsn(entries_view(r@)),
    {
        let mut r: Vec<(i64, Vec<u8>)> = Vec::new();
        let n = names.len();
        let mut i: usize = 0;
        proof {
            assert(names.deep_view().subrange(0, 0) =~= Seq::<Seq<u8>>::empty());
            assert(entries_view(r@) =~= Seq::<(i64, Seq<u8>)>::empty());
        }
        while i < n
            invariant
                i <= n,
                n == names@.len(),
                names.deep_view().len() == n,
                entries_view(r@) == spec_sort_entries(
                    spec_scan(names.deep_view().subrange(0, i as int), self.suffix@),
                ),
            decreases n - i,
        {
            let ghost pre = names.deep_view().subrange(0, i as int);
            let ghost cur = names.deep_view().subrange(0, i + 1);
            proof {
                assert(names.deep_view()[i as int] == names@[i as int]@);
                assert(cur.drop_last() =~= pre);
                assert(cur.last() == names@[i as int]@);
            }
            match parse_name(names[i].as_slice(), self.suffix.as_slice()) {
                Some(lsn) => {
                    let name = slice_to_vec(names[i].as_slice());
                    insert_entry(&mut r, (lsn, name));
                    proof {
                        assert(spec_scan(cur, self.suffix@) =~= spec_scan(pre, self.suffix@)
                            + seq![(lsn, names@[i as int]@)]);
                        assert(spec_scan(cur, self.suffix@).drop_last() =~= spec_scan(
                            pre,
                            self.suffix@,
                        ));
                    }
                },
                None => {
                    proof {
                        assert(spec_scan(cur, self.suffix@) =~= spec_scan(pre, self.suffix@));
                    }
                },
            }
            i = i + 1;
        }
        proof {
            assert(names.deep_view().subrange(0, n as int) =~= names.deep_view());
            lemma_sort_entries_sorted(spec_scan(names.deep_view(), self.suffix@));
        }
        r
    }

    /// The largest LSN any of the names carries, if any does.
    pub fn greatest_lsn(&self, names: &Vec<Vec<u8>>) -> (r: Option<i64>)
        ensures
            ({
                let entries = spec_sort_entries(spec_scan(names.deep_view(), self.suffix@));
                match r {
                    Some(lsn) => entries.len() > 0 && lsn == entries.last().0,
                    None => entries.len() == 0,
                }
            }),
    {
        let entries = self.scan_dir(names);
        if entries.len() == 0 {
            None
        } else {
            let last = entries.len() - 1;
            proof {
                assert(entries_view(entries@).last() == (entries@.last().0, entries@.last().1@));
            }
            Some(entries[last].0)
        }
    }
}

/// Where the recovery search lands in a list of entries: the first window
/// whose left edge is at or below the key and whose right edge is above it;
/// the last entry when no window matches.
pub open spec fn spec_find_idx(l: Seq<(i64, Vec<u8>)>, key: i64) -> int
    decreases l.len(),
{
    if l.len() <= 1 {
        l.len() - 1
    } else if l[0].0 <= key && key < l[1].0 {
        0
    } else {
        1 + spec_find_idx(l.drop_first(), key)
    }
}

proof fn lemma_find_idx_bounds(l: Seq<(i64, Vec<u8>)>, key: i64)
    requires
        l.len() > 0,
    ensures
        0 <= spec_find_idx(l, key) < l.len(),
    decreases l.len(),
{
    if l.len() > 1 && !(l[0].0 <= key && key < l[1].0) {
        lemma_find_idx_bounds(l.drop_first(), key);
    }
}

/// Find the entry that covers `key`: the one with the largest LSN at or
/// below it, or the last entry when the key lies outside the list's range
/// on either side.
pub fn find<'a>(list: &'a [(i64, Vec<u8>)], key: i64) -> (r: Option<&'a (i64, Vec<u8>)>)
    ensures
        match r {
            None => list@.len() == 0,
            Some(e) => list@.len() > 0 && *e == list@[spec_find_idx(list@, key)],
        },
{
    let n = list.len();
    if n == 0 {
        return None;
    }
    let mut i: usize = 0;
    proof {
        assert(list@.subrange(0, n as int) =~= list@);
    }
    while i + 1 < n
        invariant
            n == list@.len(),
            0 <= i < n,
            spec_find_idx(list@, key) == i + spec_find_idx(
                list@.subrange(i as int, n as int),
                key,
            ),
        decreases n - i,
    {
        let w0 = vstd::slice::slice_index_get(list, i);
        let w1 = vstd::slice::slice_index_get(list, i + 1);
        let ghost tail = list@.subrange(i as int, n as int);
        proof {
            assert(tail[0] == list@[i as int]);
            assert(tail[1] == list@[i + 1]);
            assert(tail.drop_first() =~= list@.subrange(i + 1, n as int));
        }
        if w0.0 <= key && key < w1.0 {
            proof {
                assert(spec_find_idx(tail, key) == 0);
            }
            return Some(w0);
        }
        i = i + 1;
    }
    proof {
        let tail = list@.subrange(i as int, n as int);
        assert(tail.len() == n - i);
        assert(spec_find_idx(tail, key) == tail.len() - 1);
        assert(spec_find_idx(list@, key) == n - 1);
    }
    Some(vstd::slice::slice_index_get(list, n - 1))
}

/// First index at or past `pos` holding a byte that is not a digit, or the
/// length when the digits run to the end.
pub open spec fn spec_digit_run_end(s: Seq<u8>, pos: int) -> int
    decreases s.len() - pos,
{
    if pos < 0 || pos >= s.len() {
        s.len() as int
    } else if 48 <= s[pos] <= 57 {
        spec_digit_run_end(s, pos + 1)
    } else {
        pos
    }
}

proof fn lemma_digit_run_bounds(s: Seq<u8>, pos: int)
    requires
        0 <= pos <= s.len(),
    ensures
        pos <= spec_digit_run_end(s, pos) <= s.len(),
        forall|i: int| pos <= i < spec_digit_run_end(s, pos) ==> 48 <= #[trigger] s[i] <= 57,
        spec_digit_run_end(s, pos) < s.len() ==> !(48 <= s[spec_digit_run_end(s, pos)] <= 57),
    decreases s.len() - pos,
{
    if pos < s.len() && 48 <= s[pos] <= 57 {
        lemma_digit_run_bounds(s, pos + 1);
    }
}

proof fn lemma_digit_run_at(s: Seq<u8>, pos: int, k: int)
    requires
        0 <= pos <= k <= s.len(),
        forall|i: int| pos <= i < k ==> 48 <= #[trigger] s[i] <= 57,
        k < s.len() ==> !(48 <= s[k] <= 57),
    ensures
        spec_digit_run_end(s, pos) == k,
{
    lemma_digit_run_bounds(s, pos);
    let f = spec_digit_run_end(s, pos);
    if f < k {
        assert(48 <= s[f] <= 57);
    }
    if f > k {
        assert(48 <= s[k] <= 57);
    }
}

/// End of the digit run beginning at `pos`.
fn digit_run_end(s: &[u8], pos: usize) -> (n: usize)
    requires
        pos <= s@.len(),
    ensures
        n as int == spec_digit_run_end(s@, pos as int),
        pos <= n <= s@.len(),
{
    let len = s.len();
    let mut n: usize = pos;
    while n < len
        invariant
            pos <= n <= len,
            len == s@.len(),
            forall|i: int| pos <= i < n ==> 48 <= #[trigger] s@[i] <= 57,
        decreases len - n,
    {
        let b = s[n];
        if b < 48 || b > 57 {
            proof {
                lemma_digit_run_at(s@, pos as int, n as int);
            }
            return n;
        }
        n = n + 1;
    }
    proof {
        lemma_digit_run_at(s@, pos as int, n as int);
    }
    n
}

/// What a header line yields for the SCN index: lines of the shape
/// `SCN-<id>: <scn>` give the shard id and its SCN (trailing bytes are
/// ignored); every other line, and any id outside `i32`, gives nothing.
pub open spec fn spec_parse_scn_line(line: Seq<u8>) -> Option<(i64, i64)> {
    if line.len() < 5 || line.subrange(0, 4) != seq![83u8, 67, 78, 45] {
        None
    } else {
        let dstart: int = if line[4] == 45 {
            5
        } else {
            4
        };
        let dend = spec_digit_run_end(line, dstart);
        if dend == dstart {
            None
        } else {
            match spec_parse_i64(line.subrange(4, dend)) {
                None => None,
                Some(id) => {
                    if id < -0x80000000 || id > 0x7fffffff {
                        None
                    } else if !(dend + 2 <= line.len() && line[dend] == 58 && line[dend + 1]
                        == 32) {
                        None
                    } else {
                        let sstart0 = dend + 2;
                        let sstart: int = if sstart0 < line.len() && line[sstart0] == 45 {
                            sstart0 + 1
                        } else {
                            sstart0
                        };
                        let send = spec_digit_run_end(line, sstart);
                        if send == sstart {
                            None
                        } else {
                            match spec_parse_i64(line.subrange(sstart0, send)) {
                                None => None,
                                Some(scn) => Some((id, scn)),
                            }
                        }
                    }
                },
            }
        }
    }
}

/// Parse one header line of the SCN index.
pub fn parse_scn_line(line: &[u8]) -> (r: Option<(i64, i64)>)
    ensures
        r == spec_parse_scn_line(line@),
{
    let prefix: [u8; 4] = [83, 67, 78, 45];
    proof {
        assert(prefix@ =~= seq![83u8, 67, 78, 45]);
    }
    if line.len() < 5 || !bytes_eq(slice_subrange(line, 0, 4), prefix.as_slice()) {
        return None;
    }
    let dstart: usize = if line[4] == 45 {
        5
    } else {
        4
    };
    let dend = digit_run_end(line, dstart);
    if dend == dstart {
        return None;
    }
    let id = match parse_i64(slice_subrange(line, 4, dend)) {
        Some(id) => id,
        None => {
            return None;
        },
    };
    if id < -0x80000000i64 || id > 0x7fffffffi64 {
        return None;
    }
    if dend > line.len() - 2 {
        return None;
    }
    if !(line[dend] == 58 && line[dend + 1] == 32) {
        return None;
    }
    let sstart0 = dend + 2;
    let sstart: usize = if sstart0 < line.len() && line[sstart0] == 45 {
        sstart0 + 1
    } else {
        sstart0
    };
    let send = digit_run_end(line, sstart);
    if send == sstart {
        return None;
    }
    match parse_i64(slice_subrange(line, sstart0, send)) {
        Some(scn) => Some((id, scn)),
        None => None,
    }
}

/// The SCN a header block assigns to a shard: the first line of the shape
/// `SCN-<shard_id>: <scn>`; lines that do not parse are passed over.
pub open spec fn spec_scn_of_headers(headers: Seq<Seq<u8>>, shard_id: i32) -> Option<i64>
    decreases headers.len(),
{
    if headers.len() == 0 {
        None
    } else {
        match spec_parse_scn_line(headers[0]) {
            Some((id, scn)) => if id == shard_id as i64 {
                Some(scn)
            } else {
                spec_scn_of_headers(headers.drop_first(), shard_id)
            },
            None => spec_scn_of_headers(headers.drop_first(), shard_id),
        }
    }
}

/// Search a file's header lines for this shard's SCN.
pub fn scn_of_headers(headers: &Vec<Vec<u8>>, shard_id: i32) -> (r: Option<i64>)
    ensures
        r == spec_scn_of_headers(headers.deep_view(), shard_id),
{
    let n = headers.len();
    let mut i: usize = 0;
    proof {
        assert(headers.deep_view().subrange(0, n as int) =~= headers.deep_view());
    }
    while i < n
        invariant
            i <= n,
            n == headers@.len(),
            headers.deep_view().len() == n,
            spec_scn_of_headers(headers.deep_view(), shard_id) == spec_scn_of_headers(
                headers.deep_view().subrange(i as int, n as int),
                shard_id,
            ),
        decreases n - i,
    {
        let ghost tail = headers.deep_view().subrange(i as int, n as int);
        proof {
            assert(tail[0] == headers.deep_view()[i as int]);
            assert(headers.deep_view()[i as int] == headers@[i as int]@);
            assert(tail.drop_first() =~= headers.deep_view().subrange(i + 1, n as int));
        }
        match parse_scn_line(headers[i].as_slice()) {
            Some((id, scn)) => {
                if id == shard_id as i64 {
                    return Some(scn);
                }
            },
            None => {},
        }
        i = i + 1;
    }
    proof {
        assert(headers.deep_view().subrange(n as int, n as int) =~= Seq::<Seq<u8>>::empty());
    }
    None
}

/// The edge policy of the SCN scan: the files whose headers named the shard;
/// when none did, just the newest file, so a cold shard still finds a
/// starting point.
pub fn scan_dir_scn_select(matched: Vec<(i64, Vec<u8>)>, all_last: Option<(i64, Vec<u8>)>) -> (r:
    Vec<(i64, Vec<u8>)>)
    ensures
        matched@.len() > 0 ==> r@ == matched@,
        matched@.len() == 0 ==> match all_last {
            Some(e) => r@ =~= seq![e],
            None => r@.len() == 0,
        },
{
    if matched.len() > 0 {
        matched
    } else {
        match all_last {
            Some(e) => {
                let mut r: Vec<(i64, Vec<u8>)> = Vec::new();
                r.push(e);
                r
            },
            None => Vec::new(),
        }
    }
}

impl XLogDir {
    /// The entry recovery starts from for an LSN: scan the names, then pick
    /// by the find policy; the name comes back as an owned copy.
    pub fn find_with_lsn(&self, names: &Vec<Vec<u8>>, lsn: i64) -> (r: Option<(i64, Vec<u8>)>)
        ensures
            ({
                let entries = spec_sort_entries(spec_scan(names.deep_view(), self.suffix@));
                match r {
                    None => entries.len() == 0,
                    Some(p) => entries.len() > 0 && exists|k: int|
                        0 <= k < entries.len() && (p.0, p.1@) == #[trigger] entries[k] && p.0
                            == spec_find_lsn_key(entries, lsn),
                }
            }),
    {
        let entries = self.scan_dir(names);
        match find(entries.as_slice(), lsn) {
            None => None,
            Some(e) => {
                let ghost k = spec_find_idx(entries@, lsn);
                proof {
                    lemma_find_idx_bounds(entries@, lsn);
                    lemma_find_idx_view(entries@, lsn);
                    assert(entries_view(entries@)[k] == (entries@[k].0, entries@[k].1@));
                }
                Some((e.0, slice_to_vec(e.1.as_slice())))
            },
        }
    }
}

/// The LSN the find policy lands on in a sorted entry list.
pub open spec fn spec_find_lsn_key(entries: Seq<(i64, Seq<u8>)>, key: i64) -> i64 {
    entries[spec_find_idx_v(entries, key)].0
}

/// `spec_find_idx` over viewed entries.
pub open spec fn spec_find_idx_v(l: Seq<(i64, Seq<u8>)>, key: i64) -> int
    decreases l.len(),
{
    if l.len() <= 1 {
        l.len() - 1
    } else if l[0].0 <= key && key < l[1].0 {
        0
    } else {
        1 + spec_find_idx_v(l.drop_first(), key)
    }
}

proof fn lemma_find_idx_view(l: Seq<(i64, Vec<u8>)>, key: i64)
    ensures
        spec_find_idx_v(entries_view(l), key) == spec_find_idx(l, key),
    decreases l.len(),
{
    let v = entries_view(l);
    if l.len() > 1 {
        assert(v[0].0 == l[0].0);
        assert(v[1].0 == l[1].0);
        if !(l[0].0 <= key && key < l[1].0) {
            lemma_find_idx_view(l.drop_first(), key);
            assert(entries_view(l.drop_first()) =~= v.drop_first());
        }
    }
}

/// The find policy in the terms recovery states it: on a strictly
/// ascending list, the chosen entry has the largest LSN at or below the
/// key; when every LSN is above the key, it is the last entry.
pub proof fn lemma_find_semantics(l: Seq<(i64, Vec<u8>)>, key: i64)
    requires
        l.len() > 0,
        forall|i: int, j: int| 0 <= i < j < l.len() ==> #[trigger] l[i].0 < #[trigger] l[j].0,
    ensures
        ({
            let idx = spec_find_idx(l, key);
            &&& 0 <= idx < l.len()
            &&& (exists|i: int| 0 <= i < l.len() && #[trigger] l[i].0 <= key) ==> (l[idx].0 <= key
                && (idx == l.len() - 1 || l[idx + 1].0 > key))
            &&& !(exists|i: int| 0 <= i < l.len() && #[trigger] l[i].0 <= key) ==> idx == l.len()
                - 1
        }),
    decreases l.len(),
{
    lemma_find_idx_bounds(l, key);
    if l.len() > 1 && !(l[0].0 <= key && key < l[1].0) {
        let t = l.drop_first();
        assert forall|i: int, j: int| 0 <= i < j < t.len() implies #[trigger] t[i].0
            < #[trigger] t[j].0 by {
            assert(t[i] == l[i + 1]);
            assert(t[j] == l[j + 1]);
        }
        lemma_find_semantics(t, key);
        let idx = spec_find_idx(l, key);
        assert(idx == 1 + spec_find_idx(t, key));
        if exists|i: int| 0 <= i < l.len() && #[trigger] l[i].0 <= key {
            let w = choose|i: int| 0 <= i < l.len() && #[trigger] l[i].0 <= key;
            if l[0].0 <= key {
                assert(key >= l[1].0);
                assert(t[0].0 <= key);
            } else {
                assert(w > 0);
                assert(t[w - 1] == l[w]);
                assert(t[w - 1].0 <= key);
            }
            assert(exists|i: int| 0 <= i < t.len() && #[trigger] t[i].0 <= key);
            assert(t[idx - 1] == l[idx]);
            if idx < l.len() - 1 {
                assert(t[idx] == l[idx + 1]);
            }
        } else {
            assert(forall|i: int| 0 <= i < t.len() ==> #[trigger] t[i] == l[i + 1]);
            assert forall|i: int| 0 <= i < t.len() implies !(#[trigger] t[i].0 <= key) by {
                assert(t[i] == l[i + 1]);
            }
        }
    }
}

} // verus!
