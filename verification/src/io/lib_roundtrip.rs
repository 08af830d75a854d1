use vstd::prelude::*;
use crate::engine::node::{RenLibNode, NO_NODE, NO_TEXT, MASK_TEXT, MASK_COMMENT, MASK_SIBLING, MASK_NOCHILD};
use crate::io::parser::{
    LibRecord, LibEntry, LibScan, LibSlot, lib_move, read_str, read_record, zero_at, lemma_zero_at, own_slots, scan_step,
    scan_run, lib_read, lib_root,
};
use crate::io::writer::{zero_padded, move_byte, half_id, texts_of, text_field, record_flags, node_record, next_valid, subtree_bytes, lib_file};

verus! {

/// A move that a `.lib` record can hold: a cell of the board, or no move
/// at all (-1, -1).
pub open spec fn move_ok(n: RenLibNode) -> bool {
    (0 <= n.spec_x() < 15 && 0 <= n.spec_y() < 15) || (n.spec_x() == -1 && n.spec_y() == -1)
}

/// Whether `s` holds no zero byte (a `.lib` string ends at its first zero).
pub open spec fn zero_free(s: Seq<u8>) -> bool {
    forall|i: int| 0 <= i < s.len() ==> s[i] != 0
}

/// The stored text `id`; empty for an id the pool does not hold.
pub open spec fn stored(pool: Seq<Seq<u8>>, id: u32) -> Seq<u8> {
    if id < pool.len() {
        pool[id as int]
    } else {
        Seq::empty()
    }
}

/// Whether the comment and text ids of node `idx` are none or stored texts.
pub open spec fn ids_stored(node_texts: Seq<u32>, pool: Seq<Seq<u8>>, idx: int) -> bool {
    let t = texts_of(node_texts, idx);
    &&& (half_id(t, false) == NO_TEXT || half_id(t, false) < pool.len())
    &&& (half_id(t, true) == NO_TEXT || half_id(t, true) < pool.len())
}

/// A zero-free string written with its zero and padding reads back whole,
/// and reading goes on right after the padding.
proof fn lemma_read_padded(data: Seq<u8>, off: int, t: Seq<u8>)
    requires
        0 <= off,
        off + zero_padded(t).len() <= data.len(),
        data.subrange(off, off + zero_padded(t).len()) == zero_padded(t),
        zero_free(t),
    ensures
        read_str(data, off) == (t, off + zero_padded(t).len()),
{
    let p = zero_padded(t);
    assert forall|j: int| off <= j < off + t.len() implies data[j] != 0 by {
        assert(data[j] == p[j - off]);
        assert(p[j - off] == t[j - off]);
    }
    assert(data[off + t.len()] == p[t.len() as int]);
    assert(data[off + t.len()] == 0);
    lemma_zero_at_skips(data, off, off + t.len());
    assert(zero_at(data, off) == off + t.len());
    if (t.len() + 1) % 2 != 0 {
        assert(data[off + t.len() + 1] == p[t.len() + 1int]);
    }
    assert(data.subrange(off, off + t.len()) =~= t) by {
        assert forall|j: int| 0 <= j < t.len() implies data.subrange(off, off + t.len())[j] == t[j] by {
            assert(data[off + j] == p[j]);
        }
    }
}

/// Past bytes that are not zero, the first zero is where it is.
proof fn lemma_zero_at_skips(data: Seq<u8>, i: int, z: int)
    requires
        i <= z < data.len(),
        data[z] == 0,
        forall|j: int| i <= j < z ==> data[j] != 0,
    ensures
        zero_at(data, i) == z,
    decreases z - i,
{
    if i < z {
        lemma_zero_at_skips(data, i + 1, z);
    }
}

/// The flags byte of a record reads back the four facts it was made of.
proof fn lemma_flags(idx: u32, child: u32, sibling: u32, comment: u32, text: u32)
    ensures
        ({
            let f = record_flags(idx, child, sibling, comment, text);
            &&& (f & MASK_NOCHILD == 0) == (child != NO_NODE)
            &&& (f & MASK_SIBLING != 0) == (idx != 0 && sibling != NO_NODE)
            &&& (f & MASK_COMMENT != 0) == (comment != NO_TEXT)
            &&& (f & MASK_TEXT != 0) == (text != NO_TEXT)
        }),
{
    let a: u8 = if child == NO_NODE { 0x40u8 } else { 0u8 };
    let b: u8 = if idx != 0 && sibling != NO_NODE { 0x80u8 } else { 0u8 };
    let c: u8 = if comment != NO_TEXT { 0x08u8 } else { 0u8 };
    let d: u8 = if text != NO_TEXT { 0x01u8 } else { 0u8 };
    assert({
        let f = a | b | c | d;
        &&& (f & 0x40u8 == 0) == (a == 0)
        &&& (f & 0x80u8 != 0) == (b != 0)
        &&& (f & 0x08u8 != 0) == (c != 0)
        &&& (f & 0x01u8 != 0) == (d != 0)
    }) by (bit_vector)
        requires
            a == 0 || a == 0x40,
            b == 0 || b == 0x80,
            c == 0 || c == 0x08,
            d == 0 || d == 0x01,
    ;
}

/// The packed move of a node reads back as that move.
proof fn lemma_move_byte(n: RenLibNode)
    requires
        move_ok(n),
    ensures
        lib_move(move_byte(n)) == (n.spec_x(), n.spec_y()),
{
    if n.spec_x() >= 0 && n.spec_y() >= 0 {
        let xx: u8 = (n.spec_x() + 1) as u8;
        let yy: u8 = n.spec_y() as u8;
        assert(xx == n.spec_x() + 1 && yy == n.spec_y());
        assert({
            let b = xx | (yy << 4u8);
            &&& b != 0
            &&& b & 0x0f == xx
            &&& b >> 4u8 == yy
        }) by (bit_vector)
            requires
                1 <= xx <= 15,
                yy < 15,
        ;
    }
}

/// The bytes of `data` from `off` on are `s` when `data` from `start` on
/// is `whole` and `s` sits in `whole` at `off - start`.
proof fn lemma_sub_piece(data: Seq<u8>, start: int, whole: Seq<u8>, off: int, s: Seq<u8>)
    requires
        0 <= start <= off,
        start + whole.len() <= data.len(),
        data.subrange(start, start + whole.len()) == whole,
        off - start + s.len() <= whole.len(),
        whole.subrange(off - start, off - start + s.len()) == s,
    ensures
        data.subrange(off, off + s.len()) == s,
{
    assert forall|j: int| 0 <= j < s.len() implies data.subrange(off, off + s.len())[j] == s[j] by {
        assert(whole[off - start + j] == s[j]);
        assert(data.subrange(start, start + whole.len())[off - start + j] == whole[off - start + j]);
    }
    assert(data.subrange(off, off + s.len()) =~= s);
}

/// A node's record reads back as the node: its move, whether it has a live
/// child and (below the root) a live sibling, its stored texts, and where
/// the record ends.
proof fn lemma_read_node_record(
    data: Seq<u8>,
    off: int,
    nodes: Seq<RenLibNode>,
    node_texts: Seq<u32>,
    pool: Seq<Seq<u8>>,
    idx: u32,
    child: u32,
    sibling: u32,
)
    requires
        0 <= off,
        idx < nodes.len(),
        off + node_record(nodes, node_texts, pool, idx, child, sibling).len() <= data.len(),
        data.subrange(off, off + node_record(nodes, node_texts, pool, idx, child, sibling).len()) == node_record(
            nodes,
            node_texts,
            pool,
            idx,
            child,
            sibling,
        ),
        move_ok(nodes[idx as int]),
        ids_stored(node_texts, pool, idx as int),
        pool.len() < NO_TEXT,
        forall|i: int| 0 <= i < pool.len() ==> zero_free(#[trigger] pool[i]),
    ensures
        ({
            let t = texts_of(node_texts, idx as int);
            read_record(data, off) == LibRecord {
                x: nodes[idx as int].spec_x(),
                y: nodes[idx as int].spec_y(),
                has_child: child != NO_NODE,
                has_sibling: idx != 0 && sibling != NO_NODE,
                comment: stored(pool, half_id(t, false)),
                text: stored(pool, half_id(t, true)),
                end: off + node_record(nodes, node_texts, pool, idx, child, sibling).len(),
            }
        }),
{
    let rec = node_record(nodes, node_texts, pool, idx, child, sibling);
    let t = texts_of(node_texts, idx as int);
    let comment = half_id(t, false);
    let text = half_id(t, true);
    let head: Seq<u8> = seq![move_byte(nodes[idx as int]), record_flags(idx, child, sibling, comment, text)];
    let pad: Seq<u8> = if text != NO_TEXT { seq![0u8, 0u8] } else { Seq::empty() };
    let cf = text_field(pool, comment);
    let tf = text_field(pool, text);
    assert(rec == head + pad + cf + tf);
    assert(data[off] == rec[0]);
    assert(data[off + 1] == rec[1]);
    lemma_flags(idx, child, sibling, comment, text);
    lemma_move_byte(nodes[idx as int]);
    let f = data[off + 1];
    let o = if f & MASK_TEXT != 0 { off + 4 } else { off + 2 };
    assert(o == off + head.len() + pad.len());
    if comment != NO_TEXT {
        let c = pool[comment as int];
        assert(cf == zero_padded(c));
        assert(rec.subrange(o - off, o - off + cf.len()) =~= cf);
        lemma_sub_piece(data, off, rec, o, cf);
        lemma_read_padded(data, o, c);
    } else {
        assert(cf =~= Seq::<u8>::empty());
    }
    let o1 = o + cf.len();
    if text != NO_TEXT {
        let x = pool[text as int];
        assert(tf == zero_padded(x));
        assert(rec.subrange(o1 - off, o1 - off + tf.len()) =~= tf);
        lemma_sub_piece(data, off, rec, o1, tf);
        lemma_read_padded(data, o1, x);
    } else {
        assert(tf =~= Seq::<u8>::empty());
    }
}

/// Whether the records of the subtree of `idx` are written whole within
/// `fuel`: the node is there, and so are (with one less) the subtrees of
/// its first live child and (below the root) of its next live sibling.
/// Links that run in a circle are never written whole.
pub open spec fn fits(nodes: Seq<RenLibNode>, idx: u32, fuel: nat) -> bool
    decreases fuel,
{
    if fuel == 0 || idx >= nodes.len() {
        false
    } else {
        let f = nodes.len();
        let child = next_valid(nodes, nodes[idx as int].child, f);
        let sibling = next_valid(nodes, nodes[idx as int].sibling, f);
        &&& (child != NO_NODE ==> fits(nodes, child, (fuel - 1) as nat))
        &&& (idx != 0 && sibling != NO_NODE ==> fits(nodes, sibling, (fuel - 1) as nat))
    }
}

/// What reading back the records of the subtree of `idx` gives when its
/// first node becomes node `base`, under `parent`: that node (same move,
/// same stored texts, first child at `base + 1`), the entries of its first
/// live child's subtree, then (below the root) those of its next live
/// sibling's, the nodes numbered in the order they are written.
pub open spec fn tree_entries(
    nodes: Seq<RenLibNode>,
    node_texts: Seq<u32>,
    pool: Seq<Seq<u8>>,
    idx: u32,
    parent: u32,
    base: int,
    fuel: nat,
) -> Seq<LibEntry>
    decreases fuel,
{
    if fuel == 0 || idx >= nodes.len() {
        Seq::empty()
    } else {
        let f = nodes.len();
        let child = next_valid(nodes, nodes[idx as int].child, f);
        let sibling = next_valid(nodes, nodes[idx as int].sibling, f);
        let c = if child != NO_NODE {
            tree_entries(nodes, node_texts, pool, child, base as u32, base + 1, (fuel - 1) as nat)
        } else {
            Seq::empty()
        };
        let s = if idx != 0 && sibling != NO_NODE {
            tree_entries(nodes, node_texts, pool, sibling, parent, base + 1 + c.len(), (fuel - 1) as nat)
        } else {
            Seq::empty()
        };
        let t = texts_of(node_texts, idx as int);
        let e = LibEntry {
            x: nodes[idx as int].spec_x(),
            y: nodes[idx as int].spec_y(),
            parent,
            child: if c.len() > 0 { (base + 1) as u32 } else { NO_NODE },
            sibling: if s.len() > 0 { (base + 1 + c.len()) as u32 } else { NO_NODE },
            comment: stored(pool, half_id(t, false)),
            text: stored(pool, half_id(t, true)),
        };
        seq![e] + c + s
    }
}

proof fn lemma_entries_nonempty(
    nodes: Seq<RenLibNode>,
    node_texts: Seq<u32>,
    pool: Seq<Seq<u8>>,
    idx: u32,
    parent: u32,
    base: int,
    fuel: nat,
)
    requires
        fits(nodes, idx, fuel),
    ensures
        tree_entries(nodes, node_texts, pool, idx, parent, base, fuel).len() > 0,
{
}

/// Whether every live node (not deleted, x != -2) holds a move of a record
/// and stored texts, and the stored texts can be written as strings.
pub open spec fn writable(nodes: Seq<RenLibNode>, node_texts: Seq<u32>, pool: Seq<Seq<u8>>) -> bool {
    &&& forall|i: int| 0 <= i < nodes.len() && (#[trigger] nodes[i]).spec_x() != -2 ==> move_ok(nodes[i]) && ids_stored(
        node_texts,
        pool,
        i,
    )
    &&& pool.len() < NO_TEXT
    &&& forall|i: int| 0 <= i < pool.len() ==> zero_free(#[trigger] pool[i])
}

proof fn lemma_next_valid(nodes: Seq<RenLibNode>, start: u32, fuel: nat)
    ensures
        ({
            let r = next_valid(nodes, start, fuel);
            r == NO_NODE || (r < nodes.len() && nodes[r as int].spec_x() != -2)
        }),
    decreases fuel,
{
    if fuel > 0 && start < nodes.len() && nodes[start as int].spec_x() == -2 {
        lemma_next_valid(nodes, nodes[start as int].sibling, (fuel - 1) as nat);
    }
}

/// The node of a record still to read, and the parent its record gets.
pub open spec fn slot_node(slot: LibSlot) -> int {
    match slot {
        LibSlot::Child(q) => q as int,
        LibSlot::Sibling(q) => q as int,
    }
}

pub open spec fn slot_parent(ns: Seq<LibEntry>, slot: LibSlot) -> u32 {
    match slot {
        LibSlot::Child(q) => q,
        LibSlot::Sibling(q) => ns[q as int].parent,
    }
}

/// The entries with the slot's node linked to node `k` (as its first child
/// or as its next sibling).
pub open spec fn linked(ns: Seq<LibEntry>, slot: LibSlot, k: int) -> Seq<LibEntry> {
    match slot {
        LibSlot::Child(q) => ns.update(q as int, LibEntry { child: k as u32, ..ns[q as int] }),
        LibSlot::Sibling(q) => ns.update(q as int, LibEntry { sibling: k as u32, ..ns[q as int] }),
    }
}

/// Reading the records of the subtree of `idx`, written where the last
/// record still to read starts, adds the entries of that subtree below the
/// slot's node and goes on after them with the records still to read
/// before.
proof fn lemma_scan_subtree(
    data: Seq<u8>,
    max: nat,
    s: LibScan,
    nodes: Seq<RenLibNode>,
    node_texts: Seq<u32>,
    pool: Seq<Seq<u8>>,
    idx: u32,
    fuel: nat,
)
    requires
        s.slots.len() > 0,
        0 <= slot_node(s.slots.last()) < s.nodes.len(),
        0 <= s.off,
        s.off + subtree_bytes(nodes, node_texts, pool, idx, fuel).len() <= data.len(),
        data.subrange(s.off, s.off + subtree_bytes(nodes, node_texts, pool, idx, fuel).len()) == subtree_bytes(
            nodes,
            node_texts,
            pool,
            idx,
            fuel,
        ),
        fits(nodes, idx, fuel),
        writable(nodes, node_texts, pool),
        move_ok(nodes[idx as int]),
        ids_stored(node_texts, pool, idx as int),
        s.nodes.len() + tree_entries(
            nodes,
            node_texts,
            pool,
            idx,
            slot_parent(s.nodes, s.slots.last()),
            s.nodes.len() as int,
            fuel,
        ).len() <= max,
        max < NO_NODE,
    ensures
        scan_run(data, max, s) == scan_run(
            data,
            max,
            LibScan {
                off: s.off + subtree_bytes(nodes, node_texts, pool, idx, fuel).len(),
                nodes: linked(s.nodes, s.slots.last(), s.nodes.len() as int) + tree_entries(
                    nodes,
                    node_texts,
                    pool,
                    idx,
                    slot_parent(s.nodes, s.slots.last()),
                    s.nodes.len() as int,
                    fuel,
                ),
                slots: s.slots.drop_last(),
            },
        ),
    decreases fuel,
{
    let k = s.nodes.len() as int;
    let slot = s.slots.last();
    let parent = slot_parent(s.nodes, slot);
    let f = nodes.len();
    let child = next_valid(nodes, nodes[idx as int].child, f);
    let sibling = next_valid(nodes, nodes[idx as int].sibling, f);
    lemma_next_valid(nodes, nodes[idx as int].child, f);
    lemma_next_valid(nodes, nodes[idx as int].sibling, f);
    let rec = node_record(nodes, node_texts, pool, idx, child, sibling);
    let cb = if child != NO_NODE { subtree_bytes(nodes, node_texts, pool, child, (fuel - 1) as nat) } else { Seq::empty() };
    let sb = if idx != 0 && sibling != NO_NODE {
        subtree_bytes(nodes, node_texts, pool, sibling, (fuel - 1) as nat)
    } else {
        Seq::empty()
    };
    let sub = subtree_bytes(nodes, node_texts, pool, idx, fuel);
    assert(sub == rec + cb + sb);
    let ce = if child != NO_NODE {
        tree_entries(nodes, node_texts, pool, child, k as u32, k + 1, (fuel - 1) as nat)
    } else {
        Seq::empty()
    };
    let se = if idx != 0 && sibling != NO_NODE {
        tree_entries(nodes, node_texts, pool, sibling, parent, k + 1 + ce.len(), (fuel - 1) as nat)
    } else {
        Seq::empty()
    };
    let es = tree_entries(nodes, node_texts, pool, idx, parent, k, fuel);
    assert(es.len() == 1 + ce.len() + se.len());
    assert(sub.subrange(0, rec.len() as int) =~= rec);
    lemma_sub_piece(data, s.off, sub, s.off, rec);
    lemma_read_node_record(data, s.off, nodes, node_texts, pool, idx, child, sibling);
    let r = read_record(data, s.off);
    let s1 = scan_step(data, max, s);
    assert(s1.nodes.len() == k + 1);
    assert(scan_run(data, max, s) == scan_run(data, max, s1));
    let rest = s.slots.drop_last();
    let o1 = s.off + rec.len();
    let s2 = if child != NO_NODE {
        LibScan {
            off: o1 + cb.len(),
            nodes: linked(s1.nodes, LibSlot::Child(k as u32), k + 1) + ce,
            slots: s1.slots.drop_last(),
        }
    } else {
        s1
    };
    if child != NO_NODE {
        assert(s1.slots.last() == LibSlot::Child(k as u32));
        assert(sub.subrange(rec.len() as int, (rec.len() + cb.len()) as int) =~= cb);
        lemma_sub_piece(data, s.off, sub, o1, cb);
        lemma_scan_subtree(data, max, s1, nodes, node_texts, pool, child, (fuel - 1) as nat);
        lemma_entries_nonempty(nodes, node_texts, pool, child, k as u32, k + 1, (fuel - 1) as nat);
    }
    assert(scan_run(data, max, s) == scan_run(data, max, s2));
    assert(s2.nodes[k].parent == parent);
    assert(s2.nodes.len() == k + 1 + ce.len());
    let o2 = o1 + cb.len();
    let s3 = if idx != 0 && sibling != NO_NODE {
        LibScan {
            off: o2 + sb.len(),
            nodes: linked(s2.nodes, LibSlot::Sibling(k as u32), k + 1 + ce.len()) + se,
            slots: s2.slots.drop_last(),
        }
    } else {
        s2
    };
    if idx != 0 && sibling != NO_NODE {
        assert(s2.slots.last() == LibSlot::Sibling(k as u32));
        assert(sub.subrange((rec.len() + cb.len()) as int, (rec.len() + cb.len() + sb.len()) as int) =~= sb);
        lemma_sub_piece(data, s.off, sub, o2, sb);
        assert(slot_parent(s2.nodes, s2.slots.last()) == parent);
        assert(s2.nodes.len() + se.len() <= max);
        lemma_scan_subtree(data, max, s2, nodes, node_texts, pool, sibling, (fuel - 1) as nat);
        lemma_entries_nonempty(nodes, node_texts, pool, sibling, parent, k + 1 + ce.len(), (fuel - 1) as nat);
    }
    assert(scan_run(data, max, s) == scan_run(data, max, s3));
    assert(s3.slots =~= rest);
    assert(s3.nodes =~= linked(s.nodes, slot, k) + es);
}

/// Saving a library and reading the file back gives its tree again: the
/// root with its texts, then every live node in the order the file holds it
/// (depth first, a node's children before its later siblings), with the
/// same move and the same stored texts, and linked to each other as before
/// (parent, first child, next sibling), the nodes numbered in that order.
/// This holds of a tree whose links do not run in a circle (`fits`), whose
/// root holds no move, whose live nodes hold moves of the board and stored
/// texts without zero bytes, and whose nodes the reader's limit lets in.
pub proof fn lemma_lib_roundtrip(nodes: Seq<RenLibNode>, node_texts: Seq<u32>, pool: Seq<Seq<u8>>, max: nat)
    requires
        nodes.len() > 0,
        nodes[0].spec_x() == -1 && nodes[0].spec_y() == -1,
        fits(nodes, 0, nodes.len()),
        writable(nodes, node_texts, pool),
        1 < max < NO_NODE,
        tree_entries(nodes, node_texts, pool, 0, NO_NODE, 0, nodes.len()).len() <= max,
    ensures
        lib_read(lib_file(nodes, node_texts, pool), max) == tree_entries(nodes, node_texts, pool, 0, NO_NODE, 0, nodes.len()),
{
    let n = nodes.len();
    let data = lib_file(nodes, node_texts, pool);
    let sub = subtree_bytes(nodes, node_texts, pool, 0, n);
    let header = Seq::new(20, |i: int| 0u8);
    assert(data == header + sub);
    assert(data.subrange(20, (20 + sub.len()) as int) =~= sub);
    let child = next_valid(nodes, nodes[0].child, n);
    let sibling = next_valid(nodes, nodes[0].sibling, n);
    lemma_next_valid(nodes, nodes[0].child, n);
    let rec = node_record(nodes, node_texts, pool, 0, child, sibling);
    let cb = if child != NO_NODE { subtree_bytes(nodes, node_texts, pool, child, (n - 1) as nat) } else { Seq::empty() };
    assert(sub == rec + cb + Seq::<u8>::empty());
    assert(sub.subrange(0, rec.len() as int) =~= rec);
    lemma_sub_piece(data, 20, sub, 20, rec);
    assert(nodes[0].spec_x() != -2);
    lemma_read_node_record(data, 20, nodes, node_texts, pool, 0, child, sibling);
    let r0 = read_record(data, 20);
    let t = texts_of(node_texts, 0);
    let root1 = LibEntry { comment: r0.comment, text: r0.text, ..lib_root() };
    let es = tree_entries(nodes, node_texts, pool, 0, NO_NODE, 0, n);
    let ce = if child != NO_NODE {
        tree_entries(nodes, node_texts, pool, child, 0, 1, (n - 1) as nat)
    } else {
        Seq::empty()
    };
    assert(es == seq![es[0]] + ce + Seq::<LibEntry>::empty());
    if child != NO_NODE {
        let s0 = LibScan { off: r0.end, nodes: seq![root1], slots: seq![LibSlot::Child(0)] };
        assert(sub.subrange(rec.len() as int, (rec.len() + cb.len()) as int) =~= cb);
        lemma_sub_piece(data, 20, sub, r0.end, cb);
        lemma_scan_subtree(data, max, s0, nodes, node_texts, pool, child, (n - 1) as nat);
        lemma_entries_nonempty(nodes, node_texts, pool, child, 0, 1, (n - 1) as nat);
        let fin = LibScan { off: r0.end + cb.len(), nodes: linked(s0.nodes, LibSlot::Child(0), 1) + ce, slots: Seq::empty() };
        assert(s0.slots.drop_last() =~= Seq::<LibSlot>::empty());
        assert(scan_run(data, max, fin) == fin.nodes);
        assert(fin.nodes =~= es);
    } else {
        assert(seq![root1] =~= es);
    }
}

} // verus!
