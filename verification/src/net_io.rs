//! Scatter-gather egress: an outbound byte stream accumulated as a list of
//! address ranges, served to a vectored write and rewindable to a mark.
//!
//! Addresses are carried as plain integers; the bytes behind them belong to
//! the arena or to reference-counted host objects.  Every reference that an
//! operation drops is handed back to the caller, who performs the actual
//! decrement: so "decremented exactly once" is a fact about returned
//! values, proved here.

use crate::palloc::Pool;
use vstd::prelude::*;
use vstd::seq_lib::*;

verus! {

/// A node holds at most this many ranges.
pub const NODE_IOV_CAP: usize = 64;

/// A vectored write takes at most this many ranges at once.
pub const WRITEV_IOV_CAP: usize = 1024;

/// One contiguous address range.
#[derive(Clone, Copy, Debug, PartialEq, Eq, Structural)]
pub struct IoSlice {
    pub base: usize,
    pub len: usize,
}

impl IoSlice {
    pub fn new(base: usize, len: usize) -> (v: IoSlice)
        ensures
            v.base == base,
            v.len == len,
    {
        IoSlice { base, len }
    }

    /// The address one past the range.
    pub fn end(&self) -> (e: usize)
        requires
            self.base + self.len <= usize::MAX,
        ensures
            e == self.base + self.len,
    {
        self.base + self.len
    }
}

/// Mathematical image of a node.
#[verifier::ext_equal]
pub struct NodeV {
    pub iov: Seq<IoSlice>,
    pub refs: Seq<usize>,
}

/// A chunk of the scatter list: its ranges, and the references its
/// ref-bearing ranges carry.
pub struct Node {
    pub iov: Vec<IoSlice>,
    pub refs: Vec<usize>,
}

impl View for Node {
    type V = NodeV;

    open spec fn view(&self) -> NodeV {
        NodeV { iov: self.iov@, refs: self.refs@ }
    }
}

/// Mathematical image of a message.
#[verifier::ext_equal]
pub struct MsgV {
    pub nodes: Seq<NodeV>,
    pub last_valid: bool,
}

/// The outbound message: its total byte count, the arena it allocates
/// from, its nodes, and whether the most recent range may still be
/// extended by a contiguous write.
pub struct Msg {
    pub bytes: usize,
    pub pool: Pool,
    pub node: Vec<Node>,
    pub last_valid: bool,
}

impl View for Msg {
    type V = MsgV;

    open spec fn view(&self) -> MsgV {
        MsgV {
            nodes: Seq::new(self.node@.len(), |i: int| self.node@[i]@),
            last_valid: self.last_valid,
        }
    }
}

/// Total length of a range list.
pub open spec fn spec_iovs_len(iov: Seq<IoSlice>) -> int
    decreases iov.len(),
{
    if iov.len() == 0 {
        0
    } else {
        spec_iovs_len(iov.drop_last()) + iov.last().len
    }
}

/// Total length across a node list.
pub open spec fn spec_nodes_bytes(nodes: Seq<NodeV>) -> int
    decreases nodes.len(),
{
    if nodes.len() == 0 {
        0
    } else {
        spec_nodes_bytes(nodes.drop_last()) + spec_iovs_len(nodes.last().iov)
    }
}

/// Conservation (the accounting law): what a message holds is the sum of
/// its ranges' lengths.
pub open spec fn spec_msg_bytes(m: MsgV) -> int {
    spec_nodes_bytes(m.nodes)
}

pub open spec fn spec_node_wf(n: NodeV) -> bool {
    &&& 1 <= n.iov.len() <= NODE_IOV_CAP
    &&& n.refs.len() <= NODE_IOV_CAP
    &&& forall|i: int|
        0 <= i < n.iov.len() ==> 1 <= (#[trigger] n.iov[i]).len && n.iov[i].base + n.iov[i].len
            <= usize::MAX
}

pub open spec fn spec_msg_wf(m: MsgV) -> bool {
    &&& forall|i: int| 0 <= i < m.nodes.len() ==> spec_node_wf(#[trigger] m.nodes[i])
    &&& (m.last_valid ==> m.nodes.len() > 0)
    &&& spec_msg_bytes(m) <= usize::MAX
    &&& m.nodes.len() <= usize::MAX
}

/// With every node holding at least one nonempty range, a message has at
/// least as many bytes as nodes.
pub proof fn lemma_nodes_bytes_ge_len(nodes: Seq<NodeV>)
    requires
        forall|i: int| 0 <= i < nodes.len() ==> spec_node_wf(#[trigger] nodes[i]),
    ensures
        spec_nodes_bytes(nodes) >= nodes.len(),
    decreases nodes.len(),
{
    if nodes.len() > 0 {
        assert(forall|i: int|
            0 <= i < nodes.drop_last().len() ==> #[trigger] nodes.drop_last()[i] == nodes[i]);
        lemma_nodes_bytes_ge_len(nodes.drop_last());
        let last = nodes.last();
        assert(spec_node_wf(nodes[nodes.len() - 1]));
        assert(spec_iovs_len(last.iov) >= last.iov[0].len) by {
            lemma_iovs_len_first(last.iov);
            lemma_iovs_len_nonneg(last.iov.drop_first());
        }
    }
}

impl Msg {
    /// The message invariant: well-formed nodes, and the byte counter equal
    /// to the sum of all range lengths.
    pub open spec fn wf(self) -> bool {
        &&& spec_msg_wf(self@)
        &&& self.bytes == spec_msg_bytes(self@)
        &&& self.pool.allocated <= self.pool.cursor
    }
}

/// A write starting at `base` may extend the most recent range in place.
pub open spec fn spec_can_merge(m: MsgV, base: int) -> bool {
    &&& m.last_valid
    &&& m.nodes.len() > 0
    &&& m.nodes.last().iov.len() > 0
    &&& m.nodes.last().iov.last().base + m.nodes.last().iov.last().len == base
}

/// What `add` does: extend the last range when the new bytes follow it
/// directly; otherwise append a fresh range, opening a new node when the
/// current one is full.
pub open spec fn spec_add(m: MsgV, base: usize, len: usize) -> MsgV {
    if spec_can_merge(m, base as int) {
        let n = m.nodes.last();
        let v = n.iov.last();
        let v2 = IoSlice { base: v.base, len: (v.len + len) as usize };
        let n2 = NodeV { iov: n.iov.update(n.iov.len() - 1, v2), refs: n.refs };
        MsgV { nodes: m.nodes.update(m.nodes.len() - 1, n2), last_valid: true }
    } else if m.nodes.len() == 0 || m.nodes.last().iov.len() >= NODE_IOV_CAP {
        MsgV {
            nodes: m.nodes.push(NodeV { iov: seq![IoSlice { base, len }], refs: Seq::empty() }),
            last_valid: true,
        }
    } else {
        let n = m.nodes.last();
        let n2 = NodeV { iov: n.iov.push(IoSlice { base, len }), refs: n.refs };
        MsgV { nodes: m.nodes.update(m.nodes.len() - 1, n2), last_valid: true }
    }
}

/// What `add_ref` does: always a fresh range, paired with its reference,
/// and the merge window closed, so a later contiguous write cannot fuse
/// with a ref-bearing range.
pub open spec fn spec_add_ref(m: MsgV, obj: usize, base: usize, len: usize) -> MsgV {
    if m.nodes.len() == 0 || m.nodes.last().iov.len() >= NODE_IOV_CAP || m.nodes.last().refs.len()
        >= NODE_IOV_CAP {
        MsgV {
            nodes: m.nodes.push(NodeV { iov: seq![IoSlice { base, len }], refs: seq![obj] }),
            last_valid: false,
        }
    } else {
        let n = m.nodes.last();
        let n2 = NodeV { iov: n.iov.push(IoSlice { base, len }), refs: n.refs.push(obj) };
        MsgV { nodes: m.nodes.update(m.nodes.len() - 1, n2), last_valid: false }
    }
}

pub proof fn lemma_iovs_len_push(s: Seq<IoSlice>, v: IoSlice)
    ensures
        spec_iovs_len(s.push(v)) == spec_iovs_len(s) + v.len,
{
    assert(s.push(v).drop_last() =~= s);
    assert(s.push(v).last() == v);
}

pub proof fn lemma_nodes_bytes_push(nodes: Seq<NodeV>, n: NodeV)
    ensures
        spec_nodes_bytes(nodes.push(n)) == spec_nodes_bytes(nodes) + spec_iovs_len(n.iov),
{
    assert(nodes.push(n).drop_last() =~= nodes);
    assert(nodes.push(n).last() == n);
}

pub proof fn lemma_iovs_len_nonneg(s: Seq<IoSlice>)
    ensures
        spec_iovs_len(s) >= 0,
    decreases s.len(),
{
    if s.len() > 0 {
        lemma_iovs_len_nonneg(s.drop_last());
    }
}

pub proof fn lemma_nodes_bytes_nonneg(nodes: Seq<NodeV>)
    ensures
        spec_nodes_bytes(nodes) >= 0,
    decreases nodes.len(),
{
    if nodes.len() > 0 {
        lemma_nodes_bytes_nonneg(nodes.drop_last());
        lemma_iovs_len_nonneg(nodes.last().iov);
    }
}

/// Replacing the last node changes the total by the difference of the two
/// nodes' lengths.
pub proof fn lemma_nodes_bytes_update_last(nodes: Seq<NodeV>, n2: NodeV)
    requires
        nodes.len() > 0,
    ensures
        spec_nodes_bytes(nodes.update(nodes.len() - 1, n2)) == spec_nodes_bytes(nodes)
            - spec_iovs_len(nodes.last().iov) + spec_iovs_len(n2.iov),
{
    assert(nodes.update(nodes.len() - 1, n2).drop_last() =~= nodes.drop_last());
    assert(nodes.update(nodes.len() - 1, n2).last() == n2);
}

/// Extending the last range changes the list's length by the extension.
pub proof fn lemma_iovs_len_update_last(s: Seq<IoSlice>, v2: IoSlice)
    requires
        s.len() > 0,
    ensures
        spec_iovs_len(s.update(s.len() - 1, v2)) == spec_iovs_len(s) - s.last().len + v2.len,
{
    assert(s.update(s.len() - 1, v2).drop_last() =~= s.drop_last());
    assert(s.update(s.len() - 1, v2).last() == v2);
}

/// Adding a range grows the total by its length, whichever shape the add
/// takes.
pub proof fn lemma_add_bytes(m: MsgV, base: usize, len: usize)
    requires
        spec_msg_wf(m),
        spec_msg_bytes(m) + len <= usize::MAX,
    ensures
        spec_msg_bytes(spec_add(m, base, len)) == spec_msg_bytes(m) + len,
        spec_msg_bytes(spec_add_ref(m, base, base, len)) == spec_msg_bytes(m) + len,
{
    if spec_can_merge(m, base as int) {
        let n = m.nodes.last();
        let v = n.iov.last();
        assert(v.base + v.len <= usize::MAX);
        assert(spec_iovs_len(n.iov) >= v.len) by {
            lemma_iovs_len_nonneg(n.iov.drop_last());
        }
        assert(spec_nodes_bytes(m.nodes) >= spec_iovs_len(n.iov)) by {
            lemma_nodes_bytes_nonneg(m.nodes.drop_last());
        }
        assert(v.len + len <= usize::MAX);
        let v2 = IoSlice { base: v.base, len: (v.len + len) as usize };
        assert(v2.len == v.len + len);
        lemma_iovs_len_update_last(n.iov, v2);
        lemma_nodes_bytes_update_last(
            m.nodes,
            NodeV { iov: n.iov.update(n.iov.len() - 1, v2), refs: n.refs },
        );
    } else if m.nodes.len() == 0 || m.nodes.last().iov.len() >= NODE_IOV_CAP {
        let fresh = NodeV { iov: seq![IoSlice { base, len }], refs: Seq::empty() };
        lemma_nodes_bytes_push(m.nodes, fresh);
        assert(seq![IoSlice { base, len }].drop_last() =~= Seq::<IoSlice>::empty());
        reveal_with_fuel(spec_iovs_len, 2);
        assert(spec_iovs_len(fresh.iov) == len);
    } else {
        let n = m.nodes.last();
        let n2 = NodeV { iov: n.iov.push(IoSlice { base, len }), refs: n.refs };
        lemma_iovs_len_push(n.iov, IoSlice { base, len });
        lemma_nodes_bytes_update_last(m.nodes, n2);
    }
    lemma_add_ref_bytes(m, base, base, len);
}

/// Adding a ref-bearing range also grows the total by its length.
pub proof fn lemma_add_ref_bytes(m: MsgV, obj: usize, base: usize, len: usize)
    requires
        spec_msg_wf(m),
    ensures
        spec_msg_bytes(spec_add_ref(m, obj, base, len)) == spec_msg_bytes(m) + len,
{
    if m.nodes.len() == 0 || m.nodes.last().iov.len() >= NODE_IOV_CAP || m.nodes.last().refs.len()
        >= NODE_IOV_CAP {
        let fresh = NodeV { iov: seq![IoSlice { base, len }], refs: seq![obj] };
        lemma_nodes_bytes_push(m.nodes, fresh);
        assert(seq![IoSlice { base, len }].drop_last() =~= Seq::<IoSlice>::empty());
        reveal_with_fuel(spec_iovs_len, 2);
        assert(spec_iovs_len(fresh.iov) == len);
    } else {
        let n = m.nodes.last();
        let n2 = NodeV { iov: n.iov.push(IoSlice { base, len }), refs: n.refs.push(obj) };
        lemma_iovs_len_push(n.iov, IoSlice { base, len });
        lemma_nodes_bytes_update_last(m.nodes, n2);
    }
}

impl Msg {
    /// An empty message drawing from `pool`.
    pub fn new(pool: Pool) -> (m: Msg)
        requires
            pool.allocated <= pool.cursor,
        ensures
            m.wf(),
            m@.nodes.len() == 0,
            !m@.last_valid,
            m.bytes == 0,
            m.pool == pool,
    {
        let m = Msg { bytes: 0, pool, node: Vec::new(), last_valid: false };
        proof {
            assert(m@.nodes =~= Seq::<NodeV>::empty());
        }
        m
    }

    /// Append `len` bytes at `base`, fusing with the most recent range
    /// when the two are contiguous.
    pub fn add(&mut self, base: usize, len: usize)
        requires
            old(self).wf(),
            1 <= len,
            base + len <= usize::MAX,
            old(self).bytes + len <= usize::MAX,
        ensures
            final(self).wf(),
            final(self)@ == spec_add(old(self)@, base, len),
            final(self).bytes == old(self).bytes + len,
            final(self).pool == old(self).pool,
    {
        proof {
            lemma_add_bytes(old(self)@, base, len);
        }
        self.bytes = self.bytes + len;
        let nlen = self.node.len();
        if self.last_valid && nlen > 0 {
            let ilen = self.node[nlen - 1].iov.len();
            if ilen > 0 {
                let v = self.node[nlen - 1].iov[ilen - 1];
                proof {
                    assert(old(self)@.nodes.last() == self.node@[nlen - 1]@);
                    assert(v.base + v.len <= usize::MAX);
                }
                if v.base + v.len == base {
                    let mut n = self.node.pop().unwrap();
                    let w = n.iov.pop().unwrap();
                    n.iov.push(IoSlice { base: w.base, len: w.len + len });
                    self.node.push(n);
                    self.last_valid = true;
                    proof {
                        lemma_merge_view(old(self)@, self@, base, len);
                    }
                    return ;
                }
            }
        }
        if self.node.len() == 0 || self.node[self.node.len() - 1].iov.len() >= NODE_IOV_CAP {
            let mut iov: Vec<IoSlice> = Vec::new();
            iov.push(IoSlice { base, len });
            let fresh = Node { iov, refs: Vec::new() };
            self.node.push(fresh);
            self.last_valid = true;
            let nl = self.node.len();
            proof {
                assert(self@.nodes.len() == nl);
                assert(!spec_can_merge(old(self)@, base as int));
                assert(self@.nodes =~~= spec_add(old(self)@, base, len).nodes);
            }
        } else {
            let mut n = self.node.pop().unwrap();
            n.iov.push(IoSlice { base, len });
            self.node.push(n);
            self.last_valid = true;
            proof {
                assert(!spec_can_merge(old(self)@, base as int));
                assert(self@.nodes =~~= spec_add(old(self)@, base, len).nodes);
            }
        }
    }

    /// Append a ref-bearing range.  It never fuses with its neighbors, and
    /// it closes the merge window behind itself.
    pub fn add_ref(&mut self, obj: usize, base: usize, len: usize)
        requires
            old(self).wf(),
            1 <= len,
            base + len <= usize::MAX,
            old(self).bytes + len <= usize::MAX,
        ensures
            final(self).wf(),
            final(self)@ == spec_add_ref(old(self)@, obj, base, len),
            final(self).bytes == old(self).bytes + len,
            final(self).pool == old(self).pool,
    {
        proof {
            lemma_add_ref_bytes(old(self)@, obj, base, len);
        }
        self.bytes = self.bytes + len;
        let nlen = self.node.len();
        if nlen == 0 || self.node[nlen - 1].iov.len() >= NODE_IOV_CAP || self.node[nlen
            - 1].refs.len() >= NODE_IOV_CAP {
            let mut iov: Vec<IoSlice> = Vec::new();
            iov.push(IoSlice { base, len });
            let mut refs: Vec<usize> = Vec::new();
            refs.push(obj);
            self.node.push(Node { iov, refs });
            self.last_valid = false;
            let nl = self.node.len();
            proof {
                assert(self@.nodes.len() == nl);
                assert(self@.nodes =~~= spec_add_ref(old(self)@, obj, base, len).nodes);
            }
        } else {
            let mut n = self.node.pop().unwrap();
            n.iov.push(IoSlice { base, len });
            n.refs.push(obj);
            self.node.push(n);
            self.last_valid = false;
            proof {
                assert(self@.nodes =~~= spec_add_ref(old(self)@, obj, base, len).nodes);
            }
        }
    }

    /// As `add_ref`, for a reference-counted object: such a reference is an
    /// even word, and the caller takes the object reference as it adds.
    pub fn add_obj(&mut self, obj: usize, base: usize, len: usize)
        requires
            old(self).wf(),
            obj % 2 == 0,
            1 <= len,
            base + len <= usize::MAX,
            old(self).bytes + len <= usize::MAX,
        ensures
            final(self).wf(),
            final(self)@ == spec_add_ref(old(self)@, obj, base, len),
            final(self).bytes == old(self).bytes + len,
            final(self).pool == old(self).pool,
    {
        self.add_ref(obj, base, len);
    }

    /// Reserve `len` fresh bytes from the arena and append them; returns
    /// the reserved address.  Consecutive reservations are contiguous, so
    /// they fuse into one range.
    pub fn add_alloc(&mut self, len: usize) -> (base: usize)
        requires
            old(self).wf(),
            1 <= len,
            old(self).pool.cursor + len <= usize::MAX,
            old(self).bytes + len <= usize::MAX,
        ensures
            final(self).wf(),
            base == old(self).pool.cursor,
            final(self)@ == spec_add(old(self)@, base, len),
            final(self).bytes == old(self).bytes + len,
            final(self).pool.cursor == old(self).pool.cursor + len,
            final(self).pool.allocated == old(self).pool.allocated + len,
    {
        let base = self.pool.palloc(len);
        self.add(base, len);
        base
    }
}

/// Append one reference list to another.
fn push_refs(out: &mut Vec<usize>, other: &Vec<usize>)
    ensures
        final(out)@ == old(out)@ + other@,
{
    out.extend_from_slice(other.as_slice());
    proof {
        assert forall|i: int| 0 <= i < out@.len() implies out@[i] == (old(out)@ + other@)[i] by {
            if i >= old(out)@.len() {
                assert(cloned::<usize>(other@[i - old(out)@.len()], out@[i]));
            }
        }
        assert(out@ =~= old(out)@ + other@);
    }
}

/// A checkpoint of the scatter list: which node was last, and how much of
/// its ranges, references and trailing range length existed then.
#[derive(Clone, Copy, Debug, PartialEq, Eq, Structural)]
pub enum Mark {
    Node { idx: usize, iov_len: usize, refs_len: usize, last_iov_len: usize },
    Empty,
}

/// The mark a message hands out in its current state.
pub open spec fn spec_get_mark(m: MsgV) -> Mark {
    if m.nodes.len() == 0 {
        Mark::Empty
    } else {
        Mark::Node {
            idx: (m.nodes.len() - 1) as usize,
            iov_len: m.nodes.last().iov.len() as usize,
            refs_len: m.nodes.last().refs.len() as usize,
            last_iov_len: if m.nodes.last().iov.len() > 0 {
                m.nodes.last().iov.last().len
            } else {
                0
            },
        }
    }
}

/// A mark still speaks about this message: its node exists and the
/// recorded prefix lengths have not shrunk.  Appending never invalidates
/// a mark; only draining or rewinding past it can.
pub open spec fn spec_mark_valid(m: MsgV, mark: Mark) -> bool {
    match mark {
        Mark::Empty => true,
        Mark::Node { idx, iov_len, refs_len, last_iov_len } => {
            &&& idx < m.nodes.len()
            &&& 1 <= iov_len <= m.nodes[idx as int].iov.len()
            &&& refs_len <= m.nodes[idx as int].refs.len()
            &&& 1 <= last_iov_len <= m.nodes[idx as int].iov[iov_len - 1].len
        },
    }
}

/// References of a node list, newest node first, each node's in order:
/// the order a rewind drops them in.
pub open spec fn spec_refs_rev(nodes: Seq<NodeV>) -> Seq<usize>
    decreases nodes.len(),
{
    if nodes.len() == 0 {
        Seq::empty()
    } else {
        nodes.last().refs + spec_refs_rev(nodes.drop_last())
    }
}

/// References of a node list, oldest node first: the order a clear drops
/// them in.
pub open spec fn spec_all_refs(nodes: Seq<NodeV>) -> Seq<usize>
    decreases nodes.len(),
{
    if nodes.len() == 0 {
        Seq::empty()
    } else {
        spec_all_refs(nodes.drop_last()) + nodes.last().refs
    }
}

/// What rewinding to a mark does: drop the nodes after the marked one,
/// trim the marked node's ranges and references to the recorded counts,
/// restore the trailing range's length, and hand back every dropped
/// reference exactly once.
pub open spec fn spec_rewind(m: MsgV, mark: Mark) -> (MsgV, Seq<usize>) {
    match mark {
        Mark::Empty => (
            MsgV { nodes: Seq::empty(), last_valid: false },
            spec_all_refs(m.nodes),
        ),
        Mark::Node { idx, iov_len, refs_len, last_iov_len } => {
            let node = m.nodes[idx as int];
            let kept0 = node.iov.subrange(0, iov_len as int);
            let kept = kept0.update(
                iov_len - 1,
                IoSlice { base: kept0[iov_len - 1].base, len: last_iov_len },
            );
            let newnode = NodeV { iov: kept, refs: node.refs.subrange(0, refs_len as int) };
            let released = spec_refs_rev(m.nodes.subrange(idx + 1, m.nodes.len() as int))
                + node.refs.subrange(refs_len as int, node.refs.len() as int);
            (MsgV { nodes: m.nodes.subrange(0, idx as int).push(newnode), last_valid: false }, released)
        },
    }
}

/// Peeling the oldest node off the rewind order.
proof fn lemma_refs_rev_first(nodes: Seq<NodeV>)
    requires
        nodes.len() > 0,
    ensures
        spec_refs_rev(nodes) == spec_refs_rev(nodes.drop_first()) + nodes[0].refs,
    decreases nodes.len(),
{
    if nodes.len() == 1 {
        assert(nodes.drop_last() =~= Seq::<NodeV>::empty());
        assert(nodes.drop_first() =~= Seq::<NodeV>::empty());
        assert(nodes.last().refs + spec_refs_rev(nodes.drop_last()) =~= spec_refs_rev(
            nodes.drop_first(),
        ) + nodes[0].refs);
    } else {
        lemma_refs_rev_first(nodes.drop_last());
        assert(nodes.drop_last().drop_first() =~= nodes.drop_first().drop_last());
        assert(nodes.drop_last()[0] == nodes[0]);
        assert(nodes.drop_first().last() == nodes.last());
        assert(nodes.last().refs + (spec_refs_rev(nodes.drop_first().drop_last())
            + nodes[0].refs) =~= (nodes.last().refs + spec_refs_rev(
            nodes.drop_first().drop_last(),
        )) + nodes[0].refs);
    }
}

/// Compute a message's total bytes from its nodes.
fn msg_total(node: &Vec<Node>) -> (total: usize)
    requires
        spec_nodes_bytes(Seq::new(node@.len(), |i: int| node@[i]@)) <= usize::MAX,
    ensures
        total as int == spec_nodes_bytes(Seq::new(node@.len(), |i: int| node@[i]@)),
{
    let ghost nv = Seq::new(node@.len(), |i: int| node@[i]@);
    let n = node.len();
    let mut total: usize = 0;
    let mut i: usize = 0;
    proof {
        assert(nv.subrange(0, 0) =~= Seq::<NodeV>::empty());
    }
    while i < n
        invariant
            0 <= i <= n,
            n == node@.len(),
            nv == Seq::new(node@.len(), |j: int| node@[j]@),
            spec_nodes_bytes(nv) <= usize::MAX,
            total as int == spec_nodes_bytes(nv.subrange(0, i as int)),
        decreases n - i,
    {
        proof {
            lemma_nodes_bytes_prefix_le(nv, i + 1);
            lemma_nodes_bytes_nonneg(nv.subrange(0, i + 1));
            assert(nv.subrange(0, i + 1).drop_last() =~= nv.subrange(0, i as int));
            assert(nv.subrange(0, i + 1).last() == nv[i as int]);
            lemma_iovs_len_nonneg(nv[i as int].iov);
        }
        let t = node_total(&node[i]);
        total = total + t;
        i = i + 1;
    }
    proof {
        assert(nv.subrange(0, n as int) =~= nv);
    }
    total
}

/// Compute one node's total bytes.
fn node_total(n: &Node) -> (total: usize)
    requires
        spec_iovs_len(n@.iov) <= usize::MAX,
    ensures
        total as int == spec_iovs_len(n@.iov),
{
    let k = n.iov.len();
    let mut total: usize = 0;
    let mut i: usize = 0;
    proof {
        assert(n@.iov.subrange(0, 0) =~= Seq::<IoSlice>::empty());
    }
    while i < k
        invariant
            0 <= i <= k,
            k == n.iov@.len(),
            spec_iovs_len(n@.iov) <= usize::MAX,
            total as int == spec_iovs_len(n@.iov.subrange(0, i as int)),
        decreases k - i,
    {
        proof {
            lemma_iovs_prefix_le(n@.iov, i + 1);
            lemma_iovs_len_nonneg(n@.iov.subrange(0, i + 1));
            assert(n@.iov.subrange(0, i + 1).drop_last() =~= n@.iov.subrange(0, i as int));
            assert(n@.iov.subrange(0, i + 1).last() == n@.iov[i as int]);
        }
        total = total + n.iov[i].len;
        i = i + 1;
    }
    proof {
        assert(n@.iov.subrange(0, k as int) =~= n@.iov);
    }
    total
}

pub proof fn lemma_iovs_prefix_le(s: Seq<IoSlice>, k: int)
    requires
        0 <= k <= s.len(),
    ensures
        spec_iovs_len(s.subrange(0, k)) <= spec_iovs_len(s),
    decreases s.len() - k,
{
    if k == s.len() {
        assert(s.subrange(0, k) =~= s);
    } else {
        lemma_iovs_prefix_le(s, k + 1);
        assert(s.subrange(0, k + 1).drop_last() =~= s.subrange(0, k));
    }
}

pub proof fn lemma_nodes_bytes_prefix_le(s: Seq<NodeV>, k: int)
    requires
        0 <= k <= s.len(),
    ensures
        spec_nodes_bytes(s.subrange(0, k)) <= spec_nodes_bytes(s),
    decreases s.len() - k,
{
    if k == s.len() {
        assert(s.subrange(0, k) =~= s);
    } else {
        lemma_nodes_bytes_prefix_le(s, k + 1);
        assert(s.subrange(0, k + 1).drop_last() =~= s.subrange(0, k));
        lemma_iovs_len_nonneg(s[k].iov);
    }
}

impl Msg {
    /// A checkpoint of the current state; `rewind` restores it.
    pub fn get_mark(&self) -> (mark: Mark)
        requires
            self.wf(),
        ensures
            mark == spec_get_mark(self@),
            spec_mark_valid(self@, mark),
    {
        let nlen = self.node.len();
        if nlen == 0 {
            Mark::Empty
        } else {
            let last = &self.node[nlen - 1];
            let ilen = last.iov.len();
            proof {
                assert(self@.nodes.last() == self.node@[nlen - 1]@);
            }
            Mark::Node {
                idx: nlen - 1,
                iov_len: ilen,
                refs_len: last.refs.len(),
                last_iov_len: if ilen > 0 {
                    last.iov[ilen - 1].len
                } else {
                    0
                },
            }
        }
    }

    /// Drop every node and hand back every reference, oldest node first.
    pub fn clear(&mut self) -> (released: Vec<usize>)
        requires
            old(self).wf(),
        ensures
            final(self).wf(),
            final(self)@.nodes.len() == 0,
            !final(self)@.last_valid,
            final(self).bytes == 0,
            final(self).pool == old(self).pool,
            released@ == spec_all_refs(old(self)@.nodes),
    {
        let ghost nv = self@.nodes;
        let mut released: Vec<usize> = Vec::new();
        let n = self.node.len();
        let mut i: usize = 0;
        proof {
            assert(nv.subrange(0, 0) =~= Seq::<NodeV>::empty());
            assert(released@ =~= spec_all_refs(nv.subrange(0, 0)));
        }
        while i < n
            invariant
                0 <= i <= n,
                n == self.node@.len(),
                nv == Seq::new(self.node@.len(), |j: int| self.node@[j]@),
                released@ == spec_all_refs(nv.subrange(0, i as int)),
            decreases n - i,
        {
            proof {
                assert(nv.subrange(0, i + 1).drop_last() =~= nv.subrange(0, i as int));
                assert(nv.subrange(0, i + 1).last() == nv[i as int]);
            }
            push_refs(&mut released, &self.node[i].refs);
            i = i + 1;
        }
        proof {
            assert(nv.subrange(0, n as int) =~= nv);
        }
        self.node.clear();
        self.bytes = 0;
        self.last_valid = false;
        proof {
            assert(self@.nodes =~= Seq::<NodeV>::empty());
        }
        released
    }

    /// Roll back to a mark: nodes appended after it are dropped, the
    /// marked node is trimmed to the recorded counts, the trailing range
    /// length is restored, and every dropped reference comes back exactly
    /// once, newest node first.
    pub fn rewind(&mut self, mark: &Mark) -> (released: Vec<usize>)
        requires
            old(self).wf(),
            spec_mark_valid(old(self)@, *mark),
        ensures
            final(self).wf(),
            final(self)@ == spec_rewind(old(self)@, *mark).0,
            released@ == spec_rewind(old(self)@, *mark).1,
            final(self).pool == old(self).pool,
    {
        match *mark {
            Mark::Empty => {
                let released = self.clear();
                proof {
                    assert(self@ =~~= spec_rewind(old(self)@, *mark).0);
                }
                released
            },
            Mark::Node { idx, iov_len, refs_len, last_iov_len } => {
                let ghost nv0 = self@.nodes;
                let mut released: Vec<usize> = Vec::new();
                proof {
                    assert(nv0.subrange(nv0.len() as int, nv0.len() as int) =~= Seq::<
                        NodeV,
                    >::empty());
                    assert(released@ =~= spec_refs_rev(
                        nv0.subrange(nv0.len() as int, nv0.len() as int),
                    ));
                }
                while self.node.len() > idx + 1
                    invariant
                        idx < self.node@.len() <= nv0.len(),
                        nv0 == Seq::new(old(self).node@.len(), |j: int| old(self).node@[j]@),
                        spec_mark_valid(old(self)@, *mark),
                        old(self).wf(),
                        self.pool == old(self).pool,
                        self.bytes == old(self).bytes,
                        Seq::new(self.node@.len(), |j: int| self.node@[j]@) == nv0.subrange(
                            0,
                            self.node@.len() as int,
                        ),
                        released@ == spec_refs_rev(
                            nv0.subrange(self.node@.len() as int, nv0.len() as int),
                        ),
                    decreases self.node@.len(),
                {
                    let ghost pre = Seq::new(self.node@.len(), |k: int| self.node@[k]@);
                    let popped = self.node.pop().unwrap();
                    proof {
                        let j = self.node@.len() as int;
                        assert(pre == nv0.subrange(0, j + 1));
                        assert(pre[j] == popped@);
                        assert(nv0.subrange(0, j + 1)[j] == nv0[j]);
                        assert(popped@ == nv0[j]);
                        let tail = nv0.subrange(j, nv0.len() as int);
                        lemma_refs_rev_first(tail);
                        assert(tail[0] == nv0[j]);
                        assert(tail.drop_first() =~= nv0.subrange(j + 1, nv0.len() as int));
                        assert(Seq::new(self.node@.len(), |k: int| self.node@[k]@) =~= nv0.subrange(
                            0,
                            j,
                        ));
                    }
                    push_refs(&mut released, &popped.refs);
                }
                let ghost pre2 = Seq::new(self.node@.len(), |k: int| self.node@[k]@);
                let mut n = self.node.pop().unwrap();
                proof {
                    assert(pre2 == nv0.subrange(0, idx + 1));
                    assert(pre2[idx as int] == n@);
                    assert(nv0.subrange(0, idx + 1)[idx as int] == nv0[idx as int]);
                    assert(n@ == nv0[idx as int]);
                }
                let rn = n.refs.len();
                let mut i: usize = refs_len;
                while i < rn
                    invariant
                        refs_len <= i <= rn,
                        rn == n.refs@.len(),
                        idx < nv0.len(),
                        released@ == spec_refs_rev(nv0.subrange(idx + 1, nv0.len() as int))
                            + n.refs@.subrange(refs_len as int, i as int),
                    decreases rn - i,
                {
                    let r = n.refs[i];
                    released.push(r);
                    proof {
                        assert(n.refs@.subrange(refs_len as int, i + 1) =~= n.refs@.subrange(
                            refs_len as int,
                            i as int,
                        ).push(r));
                    }
                    i = i + 1;
                }
                n.refs.truncate(refs_len);
                n.iov.truncate(iov_len);
                let v = n.iov.pop().unwrap();
                n.iov.push(IoSlice { base: v.base, len: last_iov_len });
                self.node.push(n);
                self.last_valid = false;
                proof {
                    let r = spec_rewind(old(self)@, *mark);
                    assert(n.iov@ =~= r.0.nodes.last().iov);
                    assert(self@.nodes =~= r.0.nodes);
                    assert(self@ =~~= r.0);
                    assert(released@ =~= r.1);
                    let orig = nv0[idx as int];
                    assert(n.iov@ =~= orig.iov.subrange(0, iov_len as int).drop_last().push(
                        IoSlice { base: v.base, len: last_iov_len },
                    ));
                    lemma_iovs_len_push(
                        orig.iov.subrange(0, iov_len as int).drop_last(),
                        IoSlice { base: v.base, len: last_iov_len },
                    );
                    assert(orig.iov.subrange(0, iov_len as int).drop_last() =~= orig.iov.subrange(
                        0,
                        iov_len as int,
                    ).subrange(0, iov_len - 1));
                    lemma_iovs_prefix_le(orig.iov.subrange(0, iov_len as int), iov_len - 1);
                    assert(orig.iov.subrange(0, iov_len as int).subrange(0, iov_len - 1)
                        =~= orig.iov.subrange(0, iov_len - 1));
                    lemma_iovs_prefix_le(orig.iov, iov_len as int);
                    assert(orig.iov.subrange(0, iov_len as int).last() == orig.iov[iov_len - 1]);
                    lemma_iovs_len_update_last(
                        orig.iov.subrange(0, iov_len as int),
                        IoSlice { base: v.base, len: last_iov_len },
                    );
                    assert(spec_iovs_len(n.iov@) <= spec_iovs_len(orig.iov));
                    let newnodes = self@.nodes;
                    assert(newnodes =~= nv0.subrange(0, idx as int).push(
                        NodeV { iov: n.iov@, refs: n.refs@ },
                    ));
                    lemma_nodes_bytes_push(
                        nv0.subrange(0, idx as int),
                        NodeV { iov: n.iov@, refs: n.refs@ },
                    );
                    assert(nv0.subrange(0, idx + 1).drop_last() =~= nv0.subrange(0, idx as int));
                    assert(nv0.subrange(0, idx + 1).last() == orig);
                    lemma_nodes_bytes_prefix_le(nv0, idx + 1);
                    assert(spec_nodes_bytes(newnodes) <= spec_nodes_bytes(nv0));
                    lemma_nodes_bytes_nonneg(newnodes);
                }
                let total = msg_total(&self.node);
                self.bytes = total;
                released
            },
        }
    }
}

/// Peeling the first range off the length sum.
pub proof fn lemma_iovs_len_first(s: Seq<IoSlice>)
    requires
        s.len() > 0,
    ensures
        spec_iovs_len(s) == s[0].len + spec_iovs_len(s.drop_first()),
    decreases s.len(),
{
    if s.len() == 1 {
        assert(s.drop_last() =~= Seq::<IoSlice>::empty());
        assert(s.drop_first() =~= Seq::<IoSlice>::empty());
    } else {
        lemma_iovs_len_first(s.drop_last());
        assert(s.drop_last().drop_first() =~= s.drop_first().drop_last());
        assert(s.drop_last()[0] == s[0]);
        assert(s.drop_first().last() == s.last());
    }
}

/// Peeling the first node off the byte total.
pub proof fn lemma_nodes_bytes_first(nodes: Seq<NodeV>)
    requires
        nodes.len() > 0,
    ensures
        spec_nodes_bytes(nodes) == spec_iovs_len(nodes[0].iov) + spec_nodes_bytes(
            nodes.drop_first(),
        ),
    decreases nodes.len(),
{
    if nodes.len() == 1 {
        assert(nodes.drop_last() =~= Seq::<NodeV>::empty());
        assert(nodes.drop_first() =~= Seq::<NodeV>::empty());
    } else {
        lemma_nodes_bytes_first(nodes.drop_last());
        assert(nodes.drop_last().drop_first() =~= nodes.drop_first().drop_last());
        assert(nodes.drop_last()[0] == nodes[0]);
        assert(nodes.drop_first().last() == nodes.last());
    }
}

/// What consuming `n` bytes does to one node's ranges: whole leading
/// ranges go, and the range at the boundary is rewritten in place to its
/// remainder.
pub open spec fn spec_advance_iovs(iov: Seq<IoSlice>, n: int) -> Seq<IoSlice>
    decreases iov.len(),
{
    if n <= 0 || iov.len() == 0 {
        iov
    } else if n >= iov[0].len {
        spec_advance_iovs(iov.drop_first(), n - iov[0].len)
    } else {
        iov.update(0, IoSlice { base: (iov[0].base + n) as usize, len: (iov[0].len - n) as usize })
    }
}

/// What consuming `n` bytes does to the node list: whole leading nodes are
/// popped, their references handed back oldest node first, and the node at
/// the boundary keeps its references while its ranges shrink.
pub open spec fn spec_advance_nodes(nodes: Seq<NodeV>, n: int) -> (Seq<NodeV>, Seq<usize>)
    decreases nodes.len(),
{
    if n <= 0 || nodes.len() == 0 {
        (nodes, Seq::empty())
    } else if n >= spec_iovs_len(nodes[0].iov) {
        let r = spec_advance_nodes(nodes.drop_first(), n - spec_iovs_len(nodes[0].iov));
        (r.0, nodes[0].refs + r.1)
    } else {
        (
            nodes.update(
                0,
                NodeV { iov: spec_advance_iovs(nodes[0].iov, n), refs: nodes[0].refs },
            ),
            Seq::empty(),
        )
    }
}

impl Msg {
    /// Consume the first `want` bytes of the queue after a vectored write
    /// sent them: fully-sent nodes are popped from the front and their
    /// references handed back; the range at the boundary is rewritten to
    /// its remainder.  Draining everything leaves the message cleared.
    pub fn advance(&mut self, want: usize) -> (released: Vec<usize>)
        requires
            old(self).wf(),
            want <= old(self).bytes,
        ensures
            final(self).wf(),
            final(self).bytes == old(self).bytes - want,
            final(self).pool == old(self).pool,
            final(self)@.nodes == spec_advance_nodes(old(self)@.nodes, want as int).0,
            released@ == spec_advance_nodes(old(self)@.nodes, want as int).1,
            final(self)@.last_valid == (old(self)@.last_valid && final(self)@.nodes.len() > 0),
    {
        let ghost nv0 = self@.nodes;
        let mut released: Vec<usize> = Vec::new();
        let mut n = want;
        while self.node.len() > 0 && n > 0
            invariant
                n <= self.bytes,
                self.bytes == old(self).bytes - (want - n),
                self.pool == old(self).pool,
                self.last_valid == old(self).last_valid,
                forall|i: int|
                    0 <= i < self@.nodes.len() ==> spec_node_wf(#[trigger] self@.nodes[i]),
                self.bytes == spec_nodes_bytes(self@.nodes),
                spec_advance_nodes(nv0, want as int) == ({
                    let r = spec_advance_nodes(self@.nodes, n as int);
                    (r.0, released@ + r.1)
                }),
            decreases self@.nodes.len(), n,
        {
            let ghost cur = self@.nodes;
            let ghost n_old = n as int;
            let ghost rel_old = released@;
            proof {
                assert(spec_node_wf(cur[0]));
                lemma_nodes_bytes_first(cur);
                lemma_nodes_bytes_nonneg(cur.drop_first());
                lemma_iovs_len_nonneg(cur[0].iov);
                assert(cur[0] == self.node@[0]@);
            }
            let s0 = node_total(&self.node[0]);
            if n >= s0 {
                let popped = self.node.remove(0);
                push_refs(&mut released, &popped.refs);
                self.bytes = self.bytes - s0;
                n = n - s0;
                proof {
                    assert(self@.nodes =~= cur.drop_first());
                    let r = spec_advance_nodes(self@.nodes, n as int);
                    assert(spec_advance_nodes(cur, n_old) == (r.0, cur[0].refs + r.1));
                    assert(rel_old + (cur[0].refs + r.1) =~= (rel_old + cur[0].refs) + r.1);
                    assert(released@ =~= rel_old + cur[0].refs);
                }
            } else {
                let mut first = self.node.remove(0);
                let ghost iov0 = first.iov@;
                let ghost refs0 = first.refs@;
                let ghost s0g = spec_iovs_len(iov0);
                let mut m = n;
                while m > 0
                    invariant
                        0 <= m <= n,
                        0 < n < s0g,
                        spec_iovs_len(first.iov@) == s0g - (n - m),
                        first.refs@ == refs0,
                        first.iov@.len() <= NODE_IOV_CAP,
                        forall|i: int|
                            0 <= i < first.iov@.len() ==> 1 <= (#[trigger] first.iov@[i]).len
                                && first.iov@[i].base + first.iov@[i].len <= usize::MAX,
                        spec_advance_iovs(iov0, n as int) == spec_advance_iovs(
                            first.iov@,
                            m as int,
                        ),
                    decreases first.iov@.len(), m,
                {
                    let ghost icur = first.iov@;
                    proof {
                        if icur.len() == 0 {
                            assert(spec_iovs_len(icur) == 0);
                        }
                        assert(icur.len() > 0);
                        lemma_iovs_len_first(icur);
                        lemma_iovs_len_nonneg(icur.drop_first());
                    }
                    let l0 = first.iov[0].len;
                    if m >= l0 {
                        let _dropped = first.iov.remove(0);
                        m = m - l0;
                        proof {
                            assert(first.iov@ =~= icur.drop_first());
                        }
                    } else {
                        let v = first.iov.remove(0);
                        first.iov.insert(0, IoSlice { base: v.base + m, len: v.len - m });
                        proof {
                            assert(first.iov@ =~= icur.update(
                                0,
                                IoSlice { base: (v.base + m) as usize, len: (v.len - m) as usize },
                            ));
                            lemma_iovs_len_first(first.iov@);
                            assert(first.iov@.drop_first() =~= icur.drop_first());
                        }
                        m = 0;
                    }
                }
                let ghost newnode = NodeV { iov: first.iov@, refs: first.refs@ };
                self.node.insert(0, first);
                self.bytes = self.bytes - n;
                proof {
                    assert(self@.nodes =~= cur.update(0, newnode));
                    assert(spec_advance_iovs(iov0, n as int) == newnode.iov);
                    assert(spec_advance_nodes(cur, n_old) == (
                        cur.update(0, newnode),
                        Seq::<usize>::empty(),
                    ));
                    assert(rel_old + Seq::<usize>::empty() =~= rel_old);
                    lemma_nodes_bytes_first(cur.update(0, newnode));
                    assert(cur.update(0, newnode).drop_first() =~= cur.drop_first());
                    assert(cur.update(0, newnode)[0] == newnode);
                    assert(spec_iovs_len(newnode.iov) > 0);
                    assert forall|i: int|
                        0 <= i < self@.nodes.len() implies spec_node_wf(
                        #[trigger] self@.nodes[i],
                    ) by {
                        if i > 0 {
                            assert(self@.nodes[i] == cur[i]);
                        } else {
                            assert(newnode.iov.len() >= 1) by {
                                if newnode.iov.len() == 0 {
                                    assert(spec_iovs_len(newnode.iov) == 0);
                                }
                            }
                        }
                    }
                }
                n = 0;
            }
        }
        proof {
            let r = spec_advance_nodes(self@.nodes, 0);
            assert(r == (self@.nodes, Seq::<usize>::empty()));
            assert(released@ + Seq::<usize>::empty() =~= released@);
            if self.bytes > 0 {
                lemma_nodes_bytes_nonneg(self@.nodes);
            }
            if self@.nodes.len() == 0 {
                assert(spec_nodes_bytes(self@.nodes) == 0);
            }
        }
        if self.node.len() == 0 {
            self.last_valid = false;
        }
        released
    }
}

/// The ranges a vectored write is handed: whole nodes from the front, as
/// many as fit in the cap.
pub open spec fn spec_flatten(nodes: Seq<NodeV>, cap: int) -> Seq<IoSlice>
    decreases nodes.len(),
{
    if nodes.len() == 0 {
        Seq::empty()
    } else if nodes[0].iov.len() > cap {
        Seq::empty()
    } else {
        nodes[0].iov + spec_flatten(nodes.drop_first(), cap - nodes[0].iov.len())
    }
}

impl Msg {
    /// Flatten the queue for a vectored write: whole nodes from the front,
    /// up to the cap on ranges per call.
    pub fn iovecs(&self) -> (out: Vec<IoSlice>)
        requires
            self.wf(),
        ensures
            out@ == spec_flatten(self@.nodes, WRITEV_IOV_CAP as int),
    {
        let ghost nv = self@.nodes;
        let mut out: Vec<IoSlice> = Vec::new();
        let n = self.node.len();
        let mut i: usize = 0;
        proof {
            assert(nv.subrange(0, nv.len() as int) =~= nv);
        }
        while i < n
            invariant
                self.wf(),
                0 <= i <= n,
                n == self.node@.len(),
                nv == Seq::new(self.node@.len(), |j: int| self.node@[j]@),
                out@.len() <= WRITEV_IOV_CAP,
                spec_flatten(nv, WRITEV_IOV_CAP as int) == out@ + spec_flatten(
                    nv.subrange(i as int, n as int),
                    WRITEV_IOV_CAP - out@.len(),
                ),
            decreases n - i,
        {
            let ghost tail = nv.subrange(i as int, n as int);
            proof {
                assert(tail[0] == nv[i as int]);
                assert(tail.drop_first() =~= nv.subrange(i + 1, n as int));
                assert(nv[i as int] == self.node@[i as int]@);
                assert(spec_node_wf(self@.nodes[i as int]));
                assert(self@.nodes[i as int] == nv[i as int]);
            }
            let cnt = self.node[i].iov.len();
            if out.len() + cnt > WRITEV_IOV_CAP {
                proof {
                    assert(spec_flatten(tail, WRITEV_IOV_CAP - out@.len()) =~= Seq::<
                        IoSlice,
                    >::empty());
                    assert(out@ + Seq::<IoSlice>::empty() =~= out@);
                }
                return out;
            }
            let ghost out_before = out@;
            let mut j: usize = 0;
            while j < cnt
                invariant
                    0 <= j <= cnt,
                    cnt == self.node@[i as int]@.iov.len(),
                    i < self.node@.len(),
                    out@ == out_before + self.node@[i as int]@.iov.subrange(0, j as int),
                decreases cnt - j,
            {
                let v = self.node[i].iov[j];
                out.push(v);
                proof {
                    assert(self.node@[i as int]@.iov.subrange(0, j + 1) =~= self.node@[
                        i as int
                    ]@.iov.subrange(0, j as int).push(v));
                }
                j = j + 1;
            }
            proof {
                assert(self.node@[i as int]@.iov.subrange(0, cnt as int) =~= nv[i as int].iov);
                assert(out@ =~= out_before + nv[i as int].iov);
                assert(out_before + (nv[i as int].iov + spec_flatten(
                    nv.subrange(i + 1, n as int),
                    WRITEV_IOV_CAP - out_before.len() - nv[i as int].iov.len(),
                )) =~= (out_before + nv[i as int].iov) + spec_flatten(
                    nv.subrange(i + 1, n as int),
                    WRITEV_IOV_CAP - out_before.len() - nv[i as int].iov.len(),
                ));
            }
            i = i + 1;
        }
        proof {
            assert(nv.subrange(n as int, n as int) =~= Seq::<NodeV>::empty());
            assert(out@ + Seq::<IoSlice>::empty() =~= out@);
        }
        out
    }
}

/// The addresses a range covers, in order.
pub open spec fn spec_iov_cells(v: IoSlice) -> Seq<int> {
    Seq::new(v.len as nat, |i: int| v.base + i)
}

/// The addresses a range list covers, in order.
pub open spec fn spec_iovs_cells(s: Seq<IoSlice>) -> Seq<int>
    decreases s.len(),
{
    if s.len() == 0 {
        Seq::empty()
    } else {
        spec_iovs_cells(s.drop_last()) + spec_iov_cells(s.last())
    }
}

/// The whole outbound stream, as the sequence of addresses it will send.
pub open spec fn spec_nodes_cells(nodes: Seq<NodeV>) -> Seq<int>
    decreases nodes.len(),
{
    if nodes.len() == 0 {
        Seq::empty()
    } else {
        spec_nodes_cells(nodes.drop_last()) + spec_iovs_cells(nodes.last().iov)
    }
}

pub proof fn lemma_iovs_cells_len(s: Seq<IoSlice>)
    ensures
        spec_iovs_cells(s).len() == spec_iovs_len(s),
    decreases s.len(),
{
    if s.len() > 0 {
        lemma_iovs_cells_len(s.drop_last());
    }
}

pub proof fn lemma_nodes_cells_len(nodes: Seq<NodeV>)
    ensures
        spec_nodes_cells(nodes).len() == spec_nodes_bytes(nodes),
    decreases nodes.len(),
{
    if nodes.len() > 0 {
        lemma_nodes_cells_len(nodes.drop_last());
        lemma_iovs_cells_len(nodes.last().iov);
    }
}

proof fn lemma_iovs_cells_first(s: Seq<IoSlice>)
    requires
        s.len() > 0,
    ensures
        spec_iovs_cells(s) == spec_iov_cells(s[0]) + spec_iovs_cells(s.drop_first()),
    decreases s.len(),
{
    if s.len() == 1 {
        assert(s.drop_last() =~= Seq::<IoSlice>::empty());
        assert(s.drop_first() =~= Seq::<IoSlice>::empty());
        assert(spec_iovs_cells(s) =~= spec_iov_cells(s[0]) + spec_iovs_cells(s.drop_first()));
    } else {
        lemma_iovs_cells_first(s.drop_last());
        assert(s.drop_last().drop_first() =~= s.drop_first().drop_last());
        assert(s.drop_last()[0] == s[0]);
        assert(s.drop_first().last() == s.last());
        assert(spec_iov_cells(s[0]) + (spec_iovs_cells(s.drop_first().drop_last())
            + spec_iov_cells(s.drop_first().last())) =~= (spec_iov_cells(s[0]) + spec_iovs_cells(
            s.drop_first().drop_last(),
        )) + spec_iov_cells(s.drop_first().last()));
    }
}

proof fn lemma_nodes_cells_first(nodes: Seq<NodeV>)
    requires
        nodes.len() > 0,
    ensures
        spec_nodes_cells(nodes) == spec_iovs_cells(nodes[0].iov) + spec_nodes_cells(
            nodes.drop_first(),
        ),
    decreases nodes.len(),
{
    if nodes.len() == 1 {
        assert(nodes.drop_last() =~= Seq::<NodeV>::empty());
        assert(nodes.drop_first() =~= Seq::<NodeV>::empty());
        assert(spec_nodes_cells(nodes) =~= spec_iovs_cells(nodes[0].iov) + spec_nodes_cells(
            nodes.drop_first(),
        ));
    } else {
        lemma_nodes_cells_first(nodes.drop_last());
        assert(nodes.drop_last().drop_first() =~= nodes.drop_first().drop_last());
        assert(nodes.drop_last()[0] == nodes[0]);
        assert(nodes.drop_first().last() == nodes.last());
        assert(spec_iovs_cells(nodes[0].iov) + (spec_nodes_cells(
            nodes.drop_first().drop_last(),
        ) + spec_iovs_cells(nodes.drop_first().last().iov)) =~= (spec_iovs_cells(nodes[0].iov)
            + spec_nodes_cells(nodes.drop_first().drop_last())) + spec_iovs_cells(
            nodes.drop_first().last().iov,
        ));
    }
}

/// Peeling the oldest node off the clear order.
proof fn lemma_all_refs_first(nodes: Seq<NodeV>)
    requires
        nodes.len() > 0,
    ensures
        spec_all_refs(nodes) == nodes[0].refs + spec_all_refs(nodes.drop_first()),
    decreases nodes.len(),
{
    if nodes.len() == 1 {
        assert(nodes.drop_last() =~= Seq::<NodeV>::empty());
        assert(nodes.drop_first() =~= Seq::<NodeV>::empty());
        assert(spec_all_refs(nodes) =~= nodes[0].refs + spec_all_refs(nodes.drop_first()));
    } else {
        lemma_all_refs_first(nodes.drop_last());
        assert(nodes.drop_last().drop_first() =~= nodes.drop_first().drop_last());
        assert(nodes.drop_last()[0] == nodes[0]);
        assert(nodes.drop_first().last() == nodes.last());
        assert(nodes[0].refs + (spec_all_refs(nodes.drop_first().drop_last())
            + nodes.drop_first().last().refs) =~= (nodes[0].refs + spec_all_refs(
            nodes.drop_first().drop_last(),
        )) + nodes.drop_first().last().refs);
    }
}

/// Consuming `n` bytes of one node's ranges drops exactly the first `n`
/// addresses of its stream.
proof fn lemma_advance_iovs_cells(iov: Seq<IoSlice>, n: int)
    requires
        0 <= n <= spec_iovs_len(iov),
        forall|i: int|
            0 <= i < iov.len() ==> (#[trigger] iov[i]).base + iov[i].len <= usize::MAX,
    ensures
        spec_iovs_cells(spec_advance_iovs(iov, n)) == spec_iovs_cells(iov).skip(n),
        spec_iovs_len(spec_advance_iovs(iov, n)) == spec_iovs_len(iov) - n,
    decreases iov.len(),
{
    lemma_iovs_cells_len(iov);
    if n == 0 {
        assert(spec_iovs_cells(iov).skip(0) =~= spec_iovs_cells(iov));
    } else {
        assert(iov.len() > 0);
        lemma_iovs_cells_first(iov);
        lemma_iovs_len_first(iov);
        let c0 = spec_iov_cells(iov[0]);
        assert(c0.len() == iov[0].len);
        if n >= iov[0].len {
            let rest = iov.drop_first();
            assert(forall|i: int|
                0 <= i < rest.len() ==> (#[trigger] rest[i]).base + rest[i].len <= usize::MAX
                    && rest[i] == iov[i + 1]) by {
                assert(forall|i: int| 0 <= i < rest.len() ==> #[trigger] rest[i] == iov[i + 1]);
            }
            lemma_advance_iovs_cells(rest, n - iov[0].len);
            assert((c0 + spec_iovs_cells(rest)).skip(n) =~= spec_iovs_cells(rest).skip(
                n - iov[0].len,
            ));
        } else {
            let shrunk = IoSlice { base: (iov[0].base + n) as usize, len: (iov[0].len - n) as usize };
            assert(iov[0].base + iov[0].len <= usize::MAX);
            assert(shrunk.base == iov[0].base + n);
            assert(shrunk.len == iov[0].len - n);
            let upd = iov.update(0, shrunk);
            lemma_iovs_cells_first(upd);
            lemma_iovs_len_first(upd);
            assert(upd.drop_first() =~= iov.drop_first());
            assert(spec_iov_cells(shrunk) =~= c0.skip(n));
            assert((c0 + spec_iovs_cells(iov.drop_first())).skip(n) =~= c0.skip(n)
                + spec_iovs_cells(iov.drop_first()));
        }
    }
}

/// P8, partial-drain conservation: consuming `n` bytes drops exactly the
/// first `n` addresses of the outbound stream — whatever remains is sent
/// later, in order, with nothing reordered or invented — and every
/// reference of the message is either handed back now or still held.
pub proof fn lemma_advance_cells(nodes: Seq<NodeV>, n: int)
    requires
        0 <= n <= spec_nodes_bytes(nodes),
        forall|i: int| 0 <= i < nodes.len() ==> spec_node_wf(#[trigger] nodes[i]),
    ensures
        spec_nodes_cells(spec_advance_nodes(nodes, n).0) == spec_nodes_cells(nodes).skip(n),
        spec_nodes_bytes(spec_advance_nodes(nodes, n).0) == spec_nodes_bytes(nodes) - n,
        spec_all_refs(nodes) == spec_advance_nodes(nodes, n).1 + spec_all_refs(
            spec_advance_nodes(nodes, n).0,
        ),
    decreases nodes.len(),
{
    lemma_nodes_cells_len(nodes);
    if n == 0 || nodes.len() == 0 {
        assert(spec_nodes_cells(nodes).skip(0) =~= spec_nodes_cells(nodes));
        assert(Seq::<usize>::empty() + spec_all_refs(nodes) =~= spec_all_refs(nodes));
    } else {
        let s0 = spec_iovs_len(nodes[0].iov);
        lemma_nodes_cells_first(nodes);
        lemma_nodes_bytes_first(nodes);
        lemma_all_refs_first(nodes);
        lemma_iovs_cells_len(nodes[0].iov);
        assert(spec_node_wf(nodes[0]));
        let rest = nodes.drop_first();
        assert(forall|i: int| 0 <= i < rest.len() ==> #[trigger] rest[i] == nodes[i + 1]);
        if n >= s0 {
            lemma_advance_cells(rest, n - s0);
            let r = spec_advance_nodes(rest, n - s0);
            assert((spec_iovs_cells(nodes[0].iov) + spec_nodes_cells(rest)).skip(n)
                =~= spec_nodes_cells(rest).skip(n - s0));
            assert(nodes[0].refs + (r.1 + spec_all_refs(r.0)) =~= (nodes[0].refs + r.1)
                + spec_all_refs(r.0));
        } else {
            lemma_advance_iovs_cells(nodes[0].iov, n);
            let n0 = NodeV { iov: spec_advance_iovs(nodes[0].iov, n), refs: nodes[0].refs };
            let upd = nodes.update(0, n0);
            lemma_nodes_cells_first(upd);
            lemma_nodes_bytes_first(upd);
            lemma_all_refs_first(upd);
            assert(upd.drop_first() =~= rest);
            assert((spec_iovs_cells(nodes[0].iov) + spec_nodes_cells(rest)).skip(n)
                =~= spec_iovs_cells(nodes[0].iov).skip(n) + spec_nodes_cells(rest));
            assert(Seq::<usize>::empty() + spec_all_refs(upd) =~= spec_all_refs(upd));
        }
    }
}

/// Ranges held across a message.
pub open spec fn spec_iov_count(nodes: Seq<NodeV>) -> int
    decreases nodes.len(),
{
    if nodes.len() == 0 {
        0
    } else {
        spec_iov_count(nodes.drop_last()) + nodes.last().iov.len()
    }
}

proof fn lemma_iov_count_push(nodes: Seq<NodeV>, n: NodeV)
    ensures
        spec_iov_count(nodes.push(n)) == spec_iov_count(nodes) + n.iov.len(),
{
    assert(nodes.push(n).drop_last() =~= nodes);
    assert(nodes.push(n).last() == n);
}

proof fn lemma_iov_count_update_last(nodes: Seq<NodeV>, n2: NodeV)
    requires
        nodes.len() > 0,
    ensures
        spec_iov_count(nodes.update(nodes.len() - 1, n2)) == spec_iov_count(nodes)
            - nodes.last().iov.len() + n2.iov.len(),
{
    assert(nodes.update(nodes.len() - 1, n2).drop_last() =~= nodes.drop_last());
    assert(nodes.update(nodes.len() - 1, n2).last() == n2);
}

/// P9, coalescing: two adds whose ranges touch end to end yield one range
/// — the second add changes no range count — and the fused range covers
/// both writes.
pub proof fn lemma_coalescing(m: MsgV, base: usize, l1: usize, l2: usize)
    requires
        spec_msg_wf(m),
        1 <= l1,
        1 <= l2,
        base + l1 + l2 <= usize::MAX,
        spec_msg_bytes(m) + l1 + l2 <= usize::MAX,
    ensures
        ({
            let m1 = spec_add(m, base, l1);
            let m2 = spec_add(m1, (base + l1) as usize, l2);
            &&& spec_can_merge(m1, base + l1)
            &&& m2.nodes.len() == m1.nodes.len()
            &&& spec_iov_count(m2.nodes) == spec_iov_count(m1.nodes)
            &&& m2.nodes.last().iov.len() == m1.nodes.last().iov.len()
            &&& m2.nodes.last().iov.last().len == m1.nodes.last().iov.last().len + l2
        }),
{
    lemma_add_bytes(m, base, l1);
    let m1 = spec_add(m, base, l1);
    if spec_can_merge(m, base as int) {
        let n = m.nodes.last();
        let v = n.iov.last();
        assert(spec_iovs_len(n.iov) >= v.len) by {
            lemma_iovs_len_nonneg(n.iov.drop_last());
        }
        assert(spec_nodes_bytes(m.nodes) >= spec_iovs_len(n.iov)) by {
            lemma_nodes_bytes_nonneg(m.nodes.drop_last());
        }
        assert(v.len + l1 <= usize::MAX - l2);
    }
    assert(spec_can_merge(m1, base + l1));
    let n1 = m1.nodes.last();
    let v1 = n1.iov.last();
    assert(spec_iovs_len(n1.iov) >= v1.len) by {
        lemma_iovs_len_nonneg(n1.iov.drop_last());
        if spec_can_merge(m, base as int) {
            lemma_nodes_bytes_update_last(
                m.nodes,
                m1.nodes.last(),
            );
        }
    }
    assert(spec_msg_bytes(m1) >= spec_iovs_len(n1.iov)) by {
        lemma_nodes_bytes_nonneg(m1.nodes.drop_last());
    }
    assert(v1.len + l2 <= usize::MAX);
    let m2 = spec_add(m1, (base + l1) as usize, l2);
    let v2 = IoSlice { base: v1.base, len: (v1.len + l2) as usize };
    lemma_iov_count_update_last(
        m1.nodes,
        NodeV { iov: n1.iov.update(n1.iov.len() - 1, v2), refs: n1.refs },
    );
}

/// A ref-bearing range is always its own range: the count grows by one,
/// and the merge window is closed behind it.
pub proof fn lemma_add_ref_fresh(m: MsgV, obj: usize, base: usize, len: usize)
    ensures
        spec_iov_count(spec_add_ref(m, obj, base, len).nodes) == spec_iov_count(m.nodes) + 1,
        !spec_add_ref(m, obj, base, len).last_valid,
        forall|b: int| !spec_can_merge(spec_add_ref(m, obj, base, len), b),
{
    if m.nodes.len() == 0 || m.nodes.last().iov.len() >= NODE_IOV_CAP || m.nodes.last().refs.len()
        >= NODE_IOV_CAP {
        let fresh = NodeV { iov: seq![IoSlice { base, len }], refs: seq![obj] };
        lemma_iov_count_push(m.nodes, fresh);
    } else {
        let n = m.nodes.last();
        let n2 = NodeV { iov: n.iov.push(IoSlice { base, len }), refs: n.refs.push(obj) };
        lemma_iov_count_update_last(m.nodes, n2);
    }
}

/// P6, conservation: a well-formed message's byte counter is exactly the
/// sum of its ranges' lengths.  Every operation requires and re-ensures
/// `wf`, so the equation survives any sequence of adds, rewinds, clears
/// and drains.
pub proof fn lemma_bytes_conserved(m: Msg)
    requires
        m.wf(),
    ensures
        m.bytes == spec_msg_bytes(m@),
{
}

/// One append-family operation, for stating laws over whole sequences of
/// appends.
pub enum AddOp {
    Add { base: usize, len: usize },
    AddRef { obj: usize, base: usize, len: usize },
}

pub open spec fn spec_apply(m: MsgV, op: AddOp) -> MsgV {
    match op {
        AddOp::Add { base, len } => spec_add(m, base, len),
        AddOp::AddRef { obj, base, len } => spec_add_ref(m, obj, base, len),
    }
}

pub open spec fn spec_apply_ops(m: MsgV, ops: Seq<AddOp>) -> MsgV
    decreases ops.len(),
{
    if ops.len() == 0 {
        m
    } else {
        spec_apply(spec_apply_ops(m, ops.drop_last()), ops.last())
    }
}

/// The references a single operation brings in.
pub open spec fn spec_op_refs(op: AddOp) -> Seq<usize> {
    match op {
        AddOp::Add { .. } => Seq::empty(),
        AddOp::AddRef { obj, .. } => seq![obj],
    }
}

/// The references a sequence of operations brings in, in order.
pub open spec fn spec_ops_refs(ops: Seq<AddOp>) -> Seq<usize>
    decreases ops.len(),
{
    if ops.len() == 0 {
        Seq::empty()
    } else {
        spec_ops_refs(ops.drop_last()) + spec_op_refs(ops.last())
    }
}

pub open spec fn spec_op_len(op: AddOp) -> int {
    match op {
        AddOp::Add { len, .. } => len as int,
        AddOp::AddRef { len, .. } => len as int,
    }
}

pub open spec fn spec_op_fits(op: AddOp) -> bool {
    match op {
        AddOp::Add { base, len } => 1 <= len && base + len <= usize::MAX,
        AddOp::AddRef { obj, base, len } => 1 <= len && base + len <= usize::MAX,
    }
}

pub open spec fn spec_ops_len(ops: Seq<AddOp>) -> int
    decreases ops.len(),
{
    if ops.len() == 0 {
        0
    } else {
        spec_ops_len(ops.drop_last()) + spec_op_len(ops.last())
    }
}

proof fn lemma_ops_len_nonneg(ops: Seq<AddOp>)
    requires
        forall|i: int| 0 <= i < ops.len() ==> spec_op_fits(#[trigger] ops[i]),
    ensures
        spec_ops_len(ops) >= 0,
    decreases ops.len(),
{
    if ops.len() > 0 {
        assert(forall|i: int|
            0 <= i < ops.drop_last().len() ==> #[trigger] ops.drop_last()[i] == ops[i]);
        lemma_ops_len_nonneg(ops.drop_last());
    }
}

/// An add keeps every invariant of the message shape.
pub proof fn lemma_add_wf(m: MsgV, base: usize, len: usize)
    requires
        spec_msg_wf(m),
        1 <= len,
        base + len <= usize::MAX,
        spec_msg_bytes(m) + len <= usize::MAX,
    ensures
        spec_msg_wf(spec_add(m, base, len)),
        spec_msg_bytes(spec_add(m, base, len)) == spec_msg_bytes(m) + len,
{
    lemma_add_bytes(m, base, len);
    lemma_nodes_bytes_ge_len(m.nodes);
    let y = spec_add(m, base, len);
    if spec_can_merge(m, base as int) {
        let n = m.nodes.last();
        let v = n.iov.last();
        assert(spec_node_wf(m.nodes[m.nodes.len() - 1]));
        assert(spec_iovs_len(n.iov) >= v.len) by {
            lemma_iovs_len_nonneg(n.iov.drop_last());
        }
        assert(spec_nodes_bytes(m.nodes) >= spec_iovs_len(n.iov)) by {
            lemma_nodes_bytes_nonneg(m.nodes.drop_last());
        }
        let v2 = IoSlice { base: v.base, len: (v.len + len) as usize };
        let n2 = NodeV { iov: n.iov.update(n.iov.len() - 1, v2), refs: n.refs };
        assert(spec_node_wf(n2)) by {
            assert(v.base + v.len == base);
            assert forall|i: int| 0 <= i < n2.iov.len() implies 1 <= (#[trigger] n2.iov[i]).len
                && n2.iov[i].base + n2.iov[i].len <= usize::MAX by {
                if i < n2.iov.len() - 1 {
                    assert(n2.iov[i] == n.iov[i]);
                }
            }
        }
        assert forall|i: int| 0 <= i < y.nodes.len() implies spec_node_wf(
            #[trigger] y.nodes[i],
        ) by {
            if i < y.nodes.len() - 1 {
                assert(y.nodes[i] == m.nodes[i]);
            }
        }
    } else if m.nodes.len() == 0 || m.nodes.last().iov.len() >= NODE_IOV_CAP {
        let fresh = NodeV { iov: seq![IoSlice { base, len }], refs: Seq::empty() };
        assert(spec_node_wf(fresh));
        assert forall|i: int| 0 <= i < y.nodes.len() implies spec_node_wf(
            #[trigger] y.nodes[i],
        ) by {
            if i < y.nodes.len() - 1 {
                assert(y.nodes[i] == m.nodes[i]);
            }
        }
    } else {
        let n = m.nodes.last();
        assert(spec_node_wf(m.nodes[m.nodes.len() - 1]));
        let n2 = NodeV { iov: n.iov.push(IoSlice { base, len }), refs: n.refs };
        assert(spec_node_wf(n2)) by {
            assert forall|i: int| 0 <= i < n2.iov.len() implies 1 <= (#[trigger] n2.iov[i]).len
                && n2.iov[i].base + n2.iov[i].len <= usize::MAX by {
                if i < n2.iov.len() - 1 {
                    assert(n2.iov[i] == n.iov[i]);
                }
            }
        }
        assert forall|i: int| 0 <= i < y.nodes.len() implies spec_node_wf(
            #[trigger] y.nodes[i],
        ) by {
            if i < y.nodes.len() - 1 {
                assert(y.nodes[i] == m.nodes[i]);
            }
        }
    }
}

/// A ref-bearing add keeps every invariant of the message shape.
pub proof fn lemma_add_ref_wf(m: MsgV, obj: usize, base: usize, len: usize)
    requires
        spec_msg_wf(m),
        1 <= len,
        base + len <= usize::MAX,
        spec_msg_bytes(m) + len <= usize::MAX,
    ensures
        spec_msg_wf(spec_add_ref(m, obj, base, len)),
        spec_msg_bytes(spec_add_ref(m, obj, base, len)) == spec_msg_bytes(m) + len,
{
    lemma_add_ref_bytes(m, obj, base, len);
    lemma_nodes_bytes_ge_len(m.nodes);
    let y = spec_add_ref(m, obj, base, len);
    if m.nodes.len() == 0 || m.nodes.last().iov.len() >= NODE_IOV_CAP || m.nodes.last().refs.len()
        >= NODE_IOV_CAP {
        let fresh = NodeV { iov: seq![IoSlice { base, len }], refs: seq![obj] };
        assert(spec_node_wf(fresh));
        assert forall|i: int| 0 <= i < y.nodes.len() implies spec_node_wf(
            #[trigger] y.nodes[i],
        ) by {
            if i < y.nodes.len() - 1 {
                assert(y.nodes[i] == m.nodes[i]);
            }
        }
    } else {
        let n = m.nodes.last();
        assert(spec_node_wf(m.nodes[m.nodes.len() - 1]));
        let n2 = NodeV { iov: n.iov.push(IoSlice { base, len }), refs: n.refs.push(obj) };
        assert(spec_node_wf(n2)) by {
            assert forall|i: int| 0 <= i < n2.iov.len() implies 1 <= (#[trigger] n2.iov[i]).len
                && n2.iov[i].base + n2.iov[i].len <= usize::MAX by {
                if i < n2.iov.len() - 1 {
                    assert(n2.iov[i] == n.iov[i]);
                }
            }
        }
        assert forall|i: int| 0 <= i < y.nodes.len() implies spec_node_wf(
            #[trigger] y.nodes[i],
        ) by {
            if i < y.nodes.len() - 1 {
                assert(y.nodes[i] == m.nodes[i]);
            }
        }
    }
}

/// An operation appends its references at the end of the message's
/// reference list, and drops none.
proof fn lemma_all_refs_apply(x: MsgV, op: AddOp)
    ensures
        spec_all_refs(spec_apply(x, op).nodes) == spec_all_refs(x.nodes) + spec_op_refs(op),
{
    let y = spec_apply(x, op);
    if y.nodes.len() == x.nodes.len() + 1 {
        assert(y.nodes.drop_last() =~= x.nodes);
    } else {
        assert(y.nodes.len() == x.nodes.len());
        assert(x.nodes.len() > 0);
        assert(y.nodes.drop_last() =~= x.nodes.drop_last());
    }
    match op {
        AddOp::Add { base, len } => {
            assert(spec_all_refs(y.nodes) =~= spec_all_refs(x.nodes) + spec_op_refs(op));
        },
        AddOp::AddRef { obj, base, len } => {
            if y.nodes.len() == x.nodes.len() + 1 {
                assert(y.nodes.last().refs =~= seq![obj]);
                assert(spec_all_refs(y.nodes) =~= spec_all_refs(x.nodes) + spec_op_refs(op));
            } else {
                assert(y.nodes.last().refs =~= x.nodes.last().refs.push(obj));
                assert(spec_all_refs(x.nodes.drop_last()) + x.nodes.last().refs.push(obj)
                    =~= (spec_all_refs(x.nodes.drop_last()) + x.nodes.last().refs) + seq![obj]);
                assert(spec_all_refs(y.nodes) =~= spec_all_refs(x.nodes) + spec_op_refs(op));
            }
        },
    }
}

/// A sequence of operations appends exactly its references, in order.
proof fn lemma_all_refs_ops(m: MsgV, ops: Seq<AddOp>)
    ensures
        spec_all_refs(spec_apply_ops(m, ops).nodes) == spec_all_refs(m.nodes) + spec_ops_refs(
            ops,
        ),
    decreases ops.len(),
{
    if ops.len() == 0 {
        assert(spec_all_refs(m.nodes) + spec_ops_refs(ops) =~= spec_all_refs(m.nodes));
    } else {
        lemma_all_refs_ops(m, ops.drop_last());
        lemma_all_refs_apply(spec_apply_ops(m, ops.drop_last()), ops.last());
        assert((spec_all_refs(m.nodes) + spec_ops_refs(ops.drop_last())) + spec_op_refs(
            ops.last(),
        ) =~= spec_all_refs(m.nodes) + (spec_ops_refs(ops.drop_last()) + spec_op_refs(
            ops.last(),
        )));
    }
}

/// Splitting the reference list at a node boundary.
proof fn lemma_all_refs_concat(a: Seq<NodeV>, b: Seq<NodeV>)
    ensures
        spec_all_refs(a + b) == spec_all_refs(a) + spec_all_refs(b),
    decreases b.len(),
{
    if b.len() == 0 {
        assert(a + b =~= a);
        assert(spec_all_refs(a) + spec_all_refs(b) =~= spec_all_refs(a));
    } else {
        lemma_all_refs_concat(a, b.drop_last());
        assert((a + b).drop_last() =~= a + b.drop_last());
        assert((a + b).last() == b.last());
        assert((spec_all_refs(a) + spec_all_refs(b.drop_last())) + b.last().refs
            =~= spec_all_refs(a) + (spec_all_refs(b.drop_last()) + b.last().refs));
    }
}

/// Drop order and keep order hold the same references.
proof fn lemma_refs_rev_multiset(nodes: Seq<NodeV>)
    ensures
        spec_refs_rev(nodes).to_multiset() == spec_all_refs(nodes).to_multiset(),
    decreases nodes.len(),
{
    broadcast use lemma_multiset_commutative;
    broadcast use vstd::multiset::group_multiset_axioms;

    if nodes.len() > 0 {
        lemma_refs_rev_multiset(nodes.drop_last());
        assert(spec_refs_rev(nodes).to_multiset() =~= spec_all_refs(nodes).to_multiset());
    }
}

/// Rewinding loses no reference: what the message held is what came back
/// plus what it still holds.
pub proof fn lemma_rewind_conservation(x: MsgV, mark: Mark)
    requires
        spec_mark_valid(x, mark),
    ensures
        spec_all_refs(x.nodes).to_multiset() == spec_rewind(x, mark).1.to_multiset().add(
            spec_all_refs(spec_rewind(x, mark).0.nodes).to_multiset(),
        ),
{
    broadcast use lemma_multiset_commutative;
    broadcast use vstd::multiset::group_multiset_axioms;

    match mark {
        Mark::Empty => {
            assert(spec_all_refs(spec_rewind(x, mark).0.nodes) =~= Seq::<usize>::empty());
            let a = spec_all_refs(x.nodes);
            assert(a + Seq::<usize>::empty() =~= a);
            assert((a + Seq::<usize>::empty()).to_multiset() == a.to_multiset().add(
                Seq::<usize>::empty().to_multiset(),
            ));
            assert(spec_all_refs(x.nodes).to_multiset() =~= spec_rewind(x, mark).1.to_multiset()
                .add(spec_all_refs(spec_rewind(x, mark).0.nodes).to_multiset()));
        },
        Mark::Node { idx, iov_len, refs_len, last_iov_len } => {
            let prefix = x.nodes.subrange(0, idx as int);
            let marked = x.nodes[idx as int];
            let dropped = x.nodes.subrange(idx + 1, x.nodes.len() as int);
            assert(x.nodes =~= (prefix + seq![marked]) + dropped);
            lemma_all_refs_concat(prefix + seq![marked], dropped);
            lemma_all_refs_concat(prefix, seq![marked]);
            assert(spec_all_refs(seq![marked]) =~= marked.refs) by {
                reveal_with_fuel(spec_all_refs, 2);
                assert(seq![marked].drop_last() =~= Seq::<NodeV>::empty());
                assert(seq![marked].last() == marked);
                assert(spec_all_refs(Seq::<NodeV>::empty()) + marked.refs =~= marked.refs);
            }
            lemma_refs_rev_multiset(dropped);
            let r = spec_rewind(x, mark);
            let kept_refs = marked.refs.subrange(0, refs_len as int);
            let tail_refs = marked.refs.subrange(refs_len as int, marked.refs.len() as int);
            assert(marked.refs =~= kept_refs + tail_refs);
            assert(r.0.nodes =~= prefix.push(r.0.nodes.last()));
            assert(r.0.nodes.last().refs == kept_refs);
            assert(spec_all_refs(r.0.nodes) =~= spec_all_refs(prefix) + kept_refs) by {
                assert(r.0.nodes.drop_last() =~= prefix);
            }
            assert(spec_all_refs(x.nodes).to_multiset() =~= r.1.to_multiset().add(
                spec_all_refs(r.0.nodes).to_multiset(),
            ));
        },
    }
}

/// A fresh mark rewinds to the state it was taken in.
pub proof fn lemma_rewind_base(m: MsgV)
    requires
        spec_msg_wf(m),
    ensures
        spec_mark_valid(m, spec_get_mark(m)),
        spec_rewind(m, spec_get_mark(m)).0 == (MsgV { nodes: m.nodes, last_valid: false }),
        spec_rewind(m, spec_get_mark(m)).1 == Seq::<usize>::empty(),
{
    let mark = spec_get_mark(m);
    match mark {
        Mark::Empty => {
            assert(m.nodes.len() == 0);
            assert(spec_rewind(m, mark).0.nodes =~= m.nodes);
            assert(spec_all_refs(m.nodes) =~= Seq::<usize>::empty());
            assert(spec_rewind(m, mark).0 =~~= (MsgV { nodes: m.nodes, last_valid: false }));
        },
        Mark::Node { idx, iov_len, refs_len, last_iov_len } => {
            assert(m.nodes.len() > 0);
            assert(spec_node_wf(m.nodes[m.nodes.len() - 1]));
            assert(idx == m.nodes.len() - 1);
            assert(iov_len == m.nodes.last().iov.len());
            assert(refs_len == m.nodes.last().refs.len());
            assert(last_iov_len == m.nodes.last().iov.last().len);
            let node = m.nodes[idx as int];
            let r = spec_rewind(m, mark);
            let kept0 = node.iov.subrange(0, iov_len as int);
            assert(kept0 =~= node.iov);
            assert(r.0.nodes.last().iov =~= node.iov) by {
                assert(kept0.update(iov_len - 1, IoSlice {
                    base: kept0[iov_len - 1].base,
                    len: last_iov_len,
                }) =~= node.iov);
            }
            assert(r.0.nodes.last().refs =~= node.refs);
            assert(r.0.nodes =~= m.nodes) by {
                assert(m.nodes.subrange(0, idx as int).push(r.0.nodes.last()) =~= m.nodes);
            }
            assert(r.0 =~~= (MsgV { nodes: m.nodes, last_valid: false }));
            assert(r.1 =~= Seq::<usize>::empty()) by {
                assert(m.nodes.subrange(idx + 1, m.nodes.len() as int) =~= Seq::<NodeV>::empty());
                assert(node.refs.subrange(refs_len as int, node.refs.len() as int) =~= Seq::<
                    usize,
                >::empty());
            }
        },
    }
}

/// One more append never disturbs what a rewind will restore.
proof fn lemma_rewind_restores_step(x: MsgV, mark: Mark, op: AddOp)
    requires
        spec_msg_wf(x),
        spec_mark_valid(x, mark),
        spec_op_fits(op),
        spec_msg_bytes(x) + spec_op_len(op) <= usize::MAX,
    ensures
        spec_msg_wf(spec_apply(x, op)),
        spec_msg_bytes(spec_apply(x, op)) == spec_msg_bytes(x) + spec_op_len(op),
        spec_mark_valid(spec_apply(x, op), mark),
        spec_rewind(spec_apply(x, op), mark).0 == spec_rewind(x, mark).0,
{
    let y = spec_apply(x, op);
    match op {
        AddOp::Add { base, len } => lemma_add_wf(x, base, len),
        AddOp::AddRef { obj, base, len } => lemma_add_ref_wf(x, obj, base, len),
    }
    match mark {
        Mark::Empty => {
            assert(spec_rewind(y, mark).0 =~~= spec_rewind(x, mark).0);
        },
        Mark::Node { idx, iov_len, refs_len, last_iov_len } => {
            let li = x.nodes.len() - 1;
            assert(idx < x.nodes.len());
            let rx = spec_rewind(x, mark);
            let ry = spec_rewind(y, mark);
            if y.nodes.len() == x.nodes.len() + 1 {
                assert(y.nodes.drop_last() =~= x.nodes);
                assert(y.nodes.subrange(0, idx as int) =~= x.nodes.subrange(0, idx as int));
                assert(y.nodes[idx as int] == x.nodes[idx as int]);
                assert(ry.0 =~~= rx.0);
            } else {
                assert(y.nodes.len() == x.nodes.len());
                assert(x.nodes.len() > 0);
                assert(forall|i: int| 0 <= i < li ==> #[trigger] y.nodes[i] == x.nodes[i]);
                if idx < li {
                    assert(y.nodes.subrange(0, idx as int) =~= x.nodes.subrange(0, idx as int));
                    assert(y.nodes[idx as int] == x.nodes[idx as int]);
                    assert(ry.0 =~~= rx.0);
                } else {
                    assert(idx == li);
                    let nx = x.nodes[idx as int];
                    let ny = y.nodes[idx as int];
                    assert(ny.refs.subrange(0, refs_len as int) =~= nx.refs.subrange(
                        0,
                        refs_len as int,
                    ));
                    assert(ny.iov.len() >= nx.iov.len());
                    let kx0 = nx.iov.subrange(0, iov_len as int);
                    let ky0 = ny.iov.subrange(0, iov_len as int);
                    assert(ky0[iov_len - 1].base == kx0[iov_len - 1].base) by {
                        if ny.iov.len() == nx.iov.len() {
                        } else {
                            assert(ny.iov[iov_len - 1] == nx.iov[iov_len - 1]);
                        }
                    }
                    assert(ky0.update(iov_len - 1, IoSlice {
                        base: ky0[iov_len - 1].base,
                        len: last_iov_len,
                    }) =~= kx0.update(iov_len - 1, IoSlice {
                        base: kx0[iov_len - 1].base,
                        len: last_iov_len,
                    })) by {
                        assert forall|j: int| 0 <= j < iov_len - 1 implies ky0[j] == kx0[j] by {
                            assert(ny.iov[j] == nx.iov[j]) by {
                                if ny.iov.len() == nx.iov.len() {
                                    if j < nx.iov.len() - 1 {
                                    }
                                }
                            }
                        }
                    }
                    assert(y.nodes.subrange(0, idx as int) =~= x.nodes.subrange(0, idx as int));
                    assert(ry.0 =~~= rx.0);
                }
            }
        },
    }
}

/// P7, rewind purity: take a mark, run any sequence of appends, rewind;
/// the nodes — their ranges, counts, and trailing range length — are
/// exactly as they were at the mark, and the references handed back are
/// exactly the ones the appends brought in, each exactly once.
pub proof fn lemma_rewind_purity(m: MsgV, ops: Seq<AddOp>)
    requires
        spec_msg_wf(m),
        forall|i: int| 0 <= i < ops.len() ==> spec_op_fits(#[trigger] ops[i]),
        spec_msg_bytes(m) + spec_ops_len(ops) <= usize::MAX,
    ensures
        ({
            let mark = spec_get_mark(m);
            let m1 = spec_apply_ops(m, ops);
            let r = spec_rewind(m1, mark);
            &&& spec_msg_wf(m1)
            &&& spec_msg_bytes(m1) == spec_msg_bytes(m) + spec_ops_len(ops)
            &&& spec_mark_valid(m1, mark)
            &&& r.0.nodes == m.nodes
            &&& !r.0.last_valid
            &&& r.1.to_multiset() == spec_ops_refs(ops).to_multiset()
        }),
    decreases ops.len(),
{
    broadcast use lemma_multiset_commutative;
    broadcast use vstd::multiset::group_multiset_axioms;

    let mark = spec_get_mark(m);
    lemma_rewind_base(m);
    if ops.len() == 0 {
        assert(spec_ops_refs(ops).to_multiset() =~= Seq::<usize>::empty().to_multiset());
    } else {
        let pre = ops.drop_last();
        assert(forall|i: int| 0 <= i < pre.len() ==> #[trigger] pre[i] == ops[i]);
        lemma_ops_len_nonneg(pre);
        assert(spec_op_fits(ops.last()));
        lemma_rewind_purity(m, pre);
        let x = spec_apply_ops(m, pre);
        lemma_rewind_restores_step(x, mark, ops.last());
        let m1 = spec_apply_ops(m, ops);
        assert(m1 == spec_apply(x, ops.last()));
        // conservation before and after the last op pins the released multiset
        lemma_rewind_conservation(x, mark);
        lemma_rewind_conservation(m1, mark);
        lemma_all_refs_ops(m, pre);
        lemma_all_refs_ops(m, ops);
        let rx = spec_rewind(x, mark);
        let r = spec_rewind(m1, mark);
        assert(r.0 == rx.0);
        let held = spec_all_refs(r.0.nodes).to_multiset();
        assert(spec_all_refs(x.nodes).to_multiset() == rx.1.to_multiset().add(held));
        assert(spec_all_refs(m1.nodes).to_multiset() == r.1.to_multiset().add(held));
        assert(rx.1.to_multiset() == spec_ops_refs(pre).to_multiset());
        lemma_multiset_commutative(spec_all_refs(m.nodes), spec_ops_refs(ops));
        lemma_multiset_commutative(spec_all_refs(m.nodes), spec_ops_refs(pre));
        lemma_multiset_commutative(spec_ops_refs(pre), spec_op_refs(ops.last()));
        assert(spec_all_refs(m1.nodes).to_multiset() == (spec_all_refs(m.nodes) + spec_ops_refs(
            ops,
        )).to_multiset());
        assert(spec_all_refs(x.nodes).to_multiset() == (spec_all_refs(m.nodes) + spec_ops_refs(
            pre,
        )).to_multiset());
        assert(spec_ops_refs(ops).to_multiset() == spec_ops_refs(pre).to_multiset().add(
            spec_op_refs(ops.last()).to_multiset(),
        ));
        assert forall|e: usize| true implies #[trigger] r.1.to_multiset().count(e)
            == spec_ops_refs(ops).to_multiset().count(e) by {
            assert(r.1.to_multiset().add(held).count(e) == r.1.to_multiset().count(e)
                + held.count(e));
            assert(rx.1.to_multiset().add(held).count(e) == rx.1.to_multiset().count(e)
                + held.count(e));
            assert(spec_all_refs(m.nodes).to_multiset().add(
                spec_ops_refs(ops).to_multiset(),
            ).count(e) == spec_all_refs(m.nodes).to_multiset().count(e) + spec_ops_refs(
                ops,
            ).to_multiset().count(e));
            assert(spec_all_refs(m.nodes).to_multiset().add(
                spec_ops_refs(pre).to_multiset(),
            ).count(e) == spec_all_refs(m.nodes).to_multiset().count(e) + spec_ops_refs(
                pre,
            ).to_multiset().count(e));
            assert(spec_ops_refs(pre).to_multiset().add(
                spec_op_refs(ops.last()).to_multiset(),
            ).count(e) == spec_ops_refs(pre).to_multiset().count(e) + spec_op_refs(
                ops.last(),
            ).to_multiset().count(e));
            assert(r.1.to_multiset().count(e) + held.count(e) == spec_all_refs(
                m.nodes,
            ).to_multiset().count(e) + spec_ops_refs(ops).to_multiset().count(e));
            assert(rx.1.to_multiset().count(e) + held.count(e) == spec_all_refs(
                m.nodes,
            ).to_multiset().count(e) + spec_ops_refs(pre).to_multiset().count(e));
        }
        assert(r.1.to_multiset() =~= spec_ops_refs(ops).to_multiset());
    }
}

/// Fusing in place leaves the view exactly as the merge case of
/// `spec_add` states it.
proof fn lemma_merge_view(m0: MsgV, m1: MsgV, base: usize, len: usize)
    requires
        spec_msg_wf(m0),
        spec_can_merge(m0, base as int),
        m0.nodes.last().iov.last().len + len <= usize::MAX,
        m1.last_valid,
        m1.nodes.len() == m0.nodes.len(),
        forall|i: int| 0 <= i < m0.nodes.len() - 1 ==> #[trigger] m1.nodes[i] == m0.nodes[i],
        m1.nodes.last().refs == m0.nodes.last().refs,
        m1.nodes.last().iov == m0.nodes.last().iov.drop_last().push(
            IoSlice {
                base: m0.nodes.last().iov.last().base,
                len: (m0.nodes.last().iov.last().len + len) as usize,
            },
        ),
    ensures
        m1 == spec_add(m0, base, len),
{
    let n = m0.nodes.last();
    let v = n.iov.last();
    let v2 = IoSlice { base: v.base, len: (v.len + len) as usize };
    assert(n.iov.drop_last().push(v2) =~= n.iov.update(n.iov.len() - 1, v2));
    assert(m1.nodes =~~= spec_add(m0, base, len).nodes);
}

} // verus!
