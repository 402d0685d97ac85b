use octopus_log::net_io::{IoSlice, Mark, Msg, NODE_IOV_CAP};
use octopus_log::palloc::{Pool, PoolCtx};

fn fresh_msg() -> Msg {
    Msg::new(Pool::new())
}

fn iov_total(msg: &Msg) -> usize {
    msg.iovecs().iter().map(|v| v.len).sum()
}

#[test]
fn test_rewind() {
    let mut msg = fresh_msg();
    assert_eq!(msg.node.len(), 0);

    // 64 non-contiguous writes fill exactly one node
    let mut p: usize = 1 << 20;
    for _ in 0..64 {
        msg.add(p, 1);
        p += 2;
    }
    assert_eq!(msg.node.len(), 1);

    let mark = msg.get_mark();

    for _ in 0..512 {
        msg.add(p, 1);
        p += 2;
    }
    assert!(msg.node.len() > 1);

    let released = msg.rewind(&mark);
    assert_eq!(msg.node.len(), 1);
    assert_eq!(msg.bytes, 64);
    assert!(released.is_empty());
}

#[test]
fn test_drop() {
    // every reference added comes back exactly once when the queue is dropped
    let mut msg = fresh_msg();
    for i in 0..512 {
        msg.add_ref(1024, (1 << 20) + i * 16, 1);
    }
    let released = msg.clear();
    assert_eq!(released.len(), 512);
    assert!(released.iter().all(|&r| r == 1024));
    assert_eq!(msg.bytes, 0);
}

#[test]
fn coalescing_contiguous_adds() {
    // "ab" then "cd" sitting right after it in memory: one range of four
    let base: usize = 1 << 20;
    let mut msg = fresh_msg();
    msg.add(base, 2);
    msg.add(base + 2, 2);
    let iovs = msg.iovecs();
    assert_eq!(iovs.len(), 1);
    assert_eq!(iovs[0], IoSlice::new(base, 4));
    assert_eq!(msg.bytes, 4);

    // a ref-bearing range never fuses
    msg.add_ref(0x1001, base + 4, 2);
    let iovs = msg.iovecs();
    assert_eq!(iovs.len(), 2);
    assert_eq!(msg.bytes, 6);

    // and nothing fuses with it afterwards either
    msg.add(base + 6, 2);
    assert_eq!(msg.iovecs().len(), 3);
}

#[test]
fn alloc_ranges_are_contiguous() {
    let mut msg = fresh_msg();
    let a = msg.add_alloc(10);
    let b = msg.add_alloc(5);
    assert_eq!(b, a + 10);
    assert_eq!(msg.iovecs().len(), 1);
    assert_eq!(msg.bytes, 15);
}

#[test]
fn mark_rewind_restores_exactly() {
    let base: usize = 1 << 20;
    let mut msg = fresh_msg();
    msg.add(base, 2);
    msg.add(base + 2, 2);
    msg.add_ref(0x1001, base + 4, 2);
    let before = msg.iovecs();
    let bytes_before = msg.bytes;

    let mark = msg.get_mark();
    let mut q = base + 100;
    for _ in 0..1000 {
        msg.add(q, 1);
        q += 3;
    }
    assert!(msg.bytes > bytes_before);

    let released = msg.rewind(&mark);
    // plain adds carried no references
    assert!(released.is_empty());
    assert_eq!(msg.bytes, bytes_before);
    let after = msg.iovecs();
    assert_eq!(before, after);

    // the reference added before the mark is still live: it comes back on drop
    let released = msg.clear();
    assert_eq!(released, vec![0x1001]);
}

#[test]
fn rewind_interval_refs_come_back_once() {
    let base: usize = 1 << 20;
    let mut msg = fresh_msg();
    msg.add(base, 4);
    let mark = msg.get_mark();
    msg.add_ref(0x2002, base + 100, 8);
    msg.add(base + 200, 4);
    msg.add_ref(0x4004, base + 300, 8);
    let mut released = msg.rewind(&mark);
    released.sort();
    assert_eq!(released, vec![0x2002, 0x4004]);
    assert_eq!(msg.bytes, 4);
}

#[test]
fn rewind_empty_mark_clears() {
    let mut msg = fresh_msg();
    let mark = msg.get_mark();
    assert!(matches!(mark, Mark::Empty));
    msg.add(1 << 20, 4);
    msg.add_ref(0x1001, 1 << 21, 4);
    let released = msg.rewind(&mark);
    assert_eq!(released, vec![0x1001]);
    assert_eq!(msg.bytes, 0);
    assert_eq!(msg.node.len(), 0);
}

#[test]
fn writev_short_write() {
    // three ranges of ten; the sink takes fifteen bytes, then would block
    let b1: usize = 1 << 20;
    let b2: usize = 2 << 20;
    let b3: usize = 3 << 20;
    let mut msg = fresh_msg();
    msg.add(b1, 10);
    msg.add(b2, 10);
    msg.add(b3, 10);
    assert_eq!(msg.iovecs().len(), 3);

    let released = msg.advance(15);
    assert!(released.is_empty());
    assert_eq!(msg.bytes, 15);
    let iovs = msg.iovecs();
    assert_eq!(iovs.len(), 2);
    // the range at the boundary is rewritten in place to its remainder
    assert_eq!(iovs[0], IoSlice::new(b2 + 5, 5));
    assert_eq!(iovs[1], IoSlice::new(b3, 10));
}

#[test]
fn partial_drain_preserves_the_stream() {
    // drain in odd chunks; the concatenation of what was sent must equal
    // the original stream of addresses, in order
    let mut msg = fresh_msg();
    let mut expected: Vec<usize> = Vec::new();
    let bases: [usize; 4] = [1 << 20, 2 << 20, 3 << 20, 4 << 20];
    let lens: [usize; 4] = [7, 130, 3, 60];
    for i in 0..4 {
        msg.add(bases[i], lens[i]);
        for k in 0..lens[i] {
            expected.push(bases[i] + k);
        }
    }
    let total = msg.bytes;
    assert_eq!(total, 200);

    let mut sent: Vec<usize> = Vec::new();
    for k in [13usize, 1, 55, 90, 41] {
        let take = k.min(msg.bytes);
        // what the sink would consume next: the first `take` addresses
        let mut upcoming: Vec<usize> = Vec::new();
        for v in msg.iovecs() {
            for j in 0..v.len {
                upcoming.push(v.base + j);
            }
        }
        sent.extend_from_slice(&upcoming[..take]);
        msg.advance(take);
    }
    assert_eq!(msg.bytes, 0);
    assert_eq!(sent, expected);
}

#[test]
fn full_drain_releases_refs_and_clears() {
    let mut msg = fresh_msg();
    msg.add(1 << 20, 10);
    msg.add_ref(0x3003, 1 << 21, 6);
    let released = msg.advance(16);
    assert_eq!(released, vec![0x3003]);
    assert_eq!(msg.bytes, 0);
    assert_eq!(msg.node.len(), 0);
    assert!(msg.iovecs().is_empty());
}

#[test]
fn bytes_is_sum_of_ranges() {
    let mut msg = fresh_msg();
    let mut q: usize = 1 << 20;
    for i in 0..200 {
        if i % 3 == 0 {
            msg.add_ref(0x1001, q, 5);
        } else {
            msg.add(q, 2 + i % 7);
        }
        q += 64;
    }
    msg.advance(17);
    assert_eq!(msg.bytes, iov_total(&msg));
    let mark = msg.get_mark();
    msg.add(q + 1000, 9);
    msg.rewind(&mark);
    assert_eq!(msg.bytes, iov_total(&msg));
}

#[test]
fn node_capacity_is_sixtyfour() {
    let mut msg = fresh_msg();
    let mut q: usize = 1 << 20;
    for _ in 0..NODE_IOV_CAP + 1 {
        msg.add(q, 1);
        q += 2;
    }
    assert_eq!(msg.node.len(), 2);
    assert_eq!(msg.node[0].iov.len(), 64);
    assert_eq!(msg.node[1].iov.len(), 1);
}

#[test]
fn add_obj_takes_even_refs() {
    let mut msg = fresh_msg();
    msg.add_obj(0x2000, 1 << 20, 4);
    let released = msg.clear();
    assert_eq!(released, vec![0x2000]);
}

#[test]
fn pool_ctx_gc_resets_over_limit() {
    let mut ctx = PoolCtx::new(100);
    let _ = ctx.pool.palloc(60);
    ctx.gc();
    assert_eq!(ctx.pool.allocated(), 60);
    let _ = ctx.pool.palloc(60);
    ctx.gc();
    assert_eq!(ctx.pool.allocated(), 0);
}
