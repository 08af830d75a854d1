use vstd::prelude::*;
use rayon::slice::ParallelSliceMut;
use rayon::iter::{IntoParallelIterator, ParallelIterator};
use rustc_hash::FxHashMap;
use crate::engine::node::{
    RenLibNode, TextPool, NO_NODE, NO_TEXT, MASK_TEXT, MASK_COMMENT, MASK_SIBLING, MASK_NOCHILD, id_map_new, id_map_get,
    id_map_insert, id_map_clear,
};
use crate::engine::hash_board::{Board, Stone, hash_of, occupied_bit, is_min8, lemma_placed_hashes};
use crate::engine::zobrist::{Zobrist, transformed_index, on_board};
use crate::engine::keys::key_value;
use crate::setting::TextEncoding;
use crate::io::codec::{encode_text, encoded};
use crate::text::{push_char, push_dec};
use crate::io::writer::half_id;

verus! {

/// What reading a node gives: its index and whether a child and a sibling
/// record follow.
struct NodeInfo {
    idx: usize,
    has_child: bool,
    has_sibling: bool,
}

/// A node on the depth-first stack of the `.lib` reader: stage 0 before its
/// move is played, stage 1 after.
struct StackFrame {
    node_idx: usize,
    stage: u8,
    has_child: bool,
    has_sibling: bool,
    made_move: bool,
}

/// Whether `a` sorts before `b`: by hash, then the higher node first.
pub open spec fn hash_pair_le(a: (u64, u32), b: (u64, u32)) -> bool {
    a.0 < b.0 || (a.0 == b.0 && a.1 >= b.1)
}

/// The order of (hash, node) pairs: by hash, then the higher node first.
fn hash_pair_order(a: &(u64, u32), b: &(u64, u32)) -> (o: std::cmp::Ordering)
    ensures
        (o is Less) <==> (a.0 < b.0 || (a.0 == b.0 && a.1 > b.1)),
        (o is Equal) <==> (a.0 == b.0 && a.1 == b.1),
{
    if a.0 < b.0 {
        std::cmp::Ordering::Less
    } else if a.0 > b.0 {
        std::cmp::Ordering::Greater
    } else if b.1 < a.1 {
        std::cmp::Ordering::Less
    } else if b.1 > a.1 {
        std::cmp::Ordering::Greater
    } else {
        std::cmp::Ordering::Equal
    }
}

/// `ParallelSliceMut::par_sort_unstable_by` of `rayon` with `hash_pair_order`:
/// the same pairs, sorted by hash and then by decreasing node.
#[verifier::external_body]
fn par_sort_hash_pairs(v: &mut Vec<(u64, u32)>)
    ensures
        final(v)@.to_multiset() == old(v)@.to_multiset(),
        forall|i: int, j: int| 0 <= i < j < final(v)@.len() ==> hash_pair_le(#[trigger] final(v)@[i], #[trigger] final(v)@[j]),
{
    v.par_sort_unstable_by(|a, b| hash_pair_order(a, b))
}

/// Reads `.lib` files and `.db` databases into a tree of nodes: the nodes,
/// a table from position hashes to nodes, the (comment, text) ids of each
/// node (packed low, high; 0xFFFF for none) and the texts.
pub struct RenLibParser {
    pub nodes: Vec<RenLibNode>,
    pub hash_table: FxHashMap<u64, u32>,
    pub node_texts: Vec<u32>,
    pub max_nodes: usize,
    pub encoding: TextEncoding,
    pub text_pool: TextPool,
}

/// The coordinates of a packed `.lib` move: (low nibble - 1, high nibble),
/// or (-1, -1) for a pass.
pub open spec fn lib_move(b: u8) -> (i8, i8) {
    if b == 0 {
        (-1i8, -1i8)
    } else {
        (((b & 0x0f) as i8 - 1) as i8, (b >> 4u8) as i8)
    }
}

/// The packed (comment, text) ids of a node, each capped at 0xFFFF; both
/// halves 0xFFFF when neither is there.
pub open spec fn packed_ids(comment: u32, text: u32) -> u32 {
    if comment != NO_TEXT || text != NO_TEXT {
        (if comment < 0xFFFF { comment } else { 0xFFFF }) | ((if text < 0xFFFF { text } else { 0xFFFF }) << 16u32)
    } else {
        0xFFFF_FFFF
    }
}

/// The first index from `i` on where `data` holds a zero byte, or the end
/// of `data`.
pub open spec fn zero_at(data: Seq<u8>, i: int) -> int
    decreases data.len() - i,
{
    if i >= data.len() {
        data.len() as int
    } else if data[i] == 0 {
        i
    } else {
        zero_at(data, i + 1)
    }
}

/// The string of a `.lib` file at `off`: the bytes up to the next zero (or
/// the end), and where reading goes on: past the zero, and past one more
/// byte when the string's length is even.
pub open spec fn read_str(data: Seq<u8>, off: int) -> (Seq<u8>, int) {
    let end = zero_at(data, off);
    let o1 = if end < data.len() { end + 1 } else { end };
    let o2 = if (end - off) % 2 == 0 && o1 < data.len() { o1 + 1 } else { o1 };
    (data.subrange(off, end), o2)
}

/// A record of a `.lib` file as read: its move, whether a child and a
/// sibling record follow, its comment and its text (empty when absent),
/// and where the next record starts.
pub struct LibRecord {
    pub x: i8,
    pub y: i8,
    pub has_child: bool,
    pub has_sibling: bool,
    pub comment: Seq<u8>,
    pub text: Seq<u8>,
    pub end: int,
}

/// The record at `off` (which has its move and flags bytes): move, flags,
/// two bytes skipped when it has a text, then the comment and the text,
/// each read only when its flag is set and the data is not over.
pub open spec fn read_record(data: Seq<u8>, off: int) -> LibRecord {
    let b = data[off];
    let f = data[off + 1];
    let o = if f & MASK_TEXT != 0 { off + 4 } else { off + 2 };
    let (c, o1) = if f & MASK_COMMENT != 0 && o <= data.len() { read_str(data, o) } else { (Seq::empty(), o) };
    let (t, o2) = if f & MASK_TEXT != 0 && o1 <= data.len() { read_str(data, o1) } else { (Seq::empty(), o1) };
    LibRecord {
        x: lib_move(b).0,
        y: lib_move(b).1,
        has_child: f & MASK_NOCHILD == 0,
        has_sibling: f & MASK_SIBLING != 0,
        comment: c,
        text: t,
        end: o2,
    }
}

/// A node of a library as read from a file: move, links, comment and text
/// (empty when absent).
pub struct LibEntry {
    pub x: i8,
    pub y: i8,
    pub parent: u32,
    pub child: u32,
    pub sibling: u32,
    pub comment: Seq<u8>,
    pub text: Seq<u8>,
}

/// A record still to read: the first child of a node, or its next sibling.
pub enum LibSlot {
    Child(u32),
    Sibling(u32),
}

/// Reading a `.lib` file part way: where the next record starts, the nodes
/// read so far, and the records still to read (the last one first).
pub struct LibScan {
    pub off: int,
    pub nodes: Seq<LibEntry>,
    pub slots: Seq<LibSlot>,
}

/// The records that a record read as node `k` announces: its next sibling
/// and, read first, its first child.
pub open spec fn own_slots(k: int, has_child: bool, has_sibling: bool) -> Seq<LibSlot> {
    (if has_sibling { seq![LibSlot::Sibling(k as u32)] } else { Seq::empty() }) + (if has_child {
        seq![LibSlot::Child(k as u32)]
    } else {
        Seq::empty()
    })
}

/// One step of reading: the last record still to read is read as a new
/// node (the child of its node, or a sibling under the same parent), which
/// announces its own child and sibling; with `max` nodes read, or fewer
/// than two bytes left, that record is not there and is dropped.
pub open spec fn scan_step(data: Seq<u8>, max: nat, s: LibScan) -> LibScan {
    let slot = s.slots.last();
    let rest = s.slots.drop_last();
    if s.nodes.len() >= max || s.off + 1 >= data.len() {
        LibScan { off: s.off, nodes: s.nodes, slots: rest }
    } else {
        let r = read_record(data, s.off);
        let k = s.nodes.len();
        let (parent, linked) = match slot {
            LibSlot::Child(q) => (q, s.nodes.update(q as int, LibEntry { child: k as u32, ..s.nodes[q as int] })),
            LibSlot::Sibling(q) => (
                s.nodes[q as int].parent,
                s.nodes.update(q as int, LibEntry { sibling: k as u32, ..s.nodes[q as int] }),
            ),
        };
        let e = LibEntry {
            x: r.x,
            y: r.y,
            parent,
            child: NO_NODE,
            sibling: NO_NODE,
            comment: r.comment,
            text: r.text,
        };
        LibScan { off: r.end, nodes: linked.push(e), slots: rest + own_slots(k as int, r.has_child, r.has_sibling) }
    }
}

/// The first zero from `i` on is at or after `i`, inside the data, and
/// no byte before it is zero.
pub proof fn lemma_zero_at(data: Seq<u8>, i: int)
    requires
        i <= data.len(),
    ensures
        i <= zero_at(data, i) <= data.len(),
        zero_at(data, i) < data.len() ==> data[zero_at(data, i)] == 0,
        forall|j: int| i <= j < zero_at(data, i) ==> data[j] != 0,
    decreases data.len() - i,
{
    if i < data.len() && data[i] != 0 {
        lemma_zero_at(data, i + 1);
    }
}

/// Reading a string from inside the data goes on inside the data.
pub proof fn lemma_read_str(data: Seq<u8>, off: int)
    requires
        off <= data.len(),
    ensures
        off <= read_str(data, off).1 <= data.len(),
{
    lemma_zero_at(data, off);
}

/// A record read where two bytes are left ends at least two bytes on and
/// at most two bytes past the data.
pub proof fn lemma_record_end(data: Seq<u8>, off: int)
    requires
        off + 1 < data.len(),
    ensures
        off + 2 <= read_record(data, off).end <= data.len() + 2,
{
    let f = data[off + 1];
    let o = if f & MASK_TEXT != 0 { off + 4 } else { off + 2 };
    if f & MASK_COMMENT != 0 && o <= data.len() {
        lemma_read_str(data, o);
    }
    let o1 = if f & MASK_COMMENT != 0 && o <= data.len() { read_str(data, o).1 } else { o };
    if f & MASK_TEXT != 0 && o1 <= data.len() {
        lemma_read_str(data, o1);
    }
}

/// The nodes read once every record still to read has been read (or found
/// missing).
pub open spec fn scan_run(data: Seq<u8>, max: nat, s: LibScan) -> Seq<LibEntry>
    decreases data.len() + 4 - s.off, s.slots.len(),
{
    if s.slots.len() == 0 {
        s.nodes
    } else {
        proof {
            if !(s.nodes.len() >= max || s.off + 1 >= data.len()) {
                lemma_record_end(data, s.off);
            }
        }
        scan_run(data, max, scan_step(data, max, s))
    }
}

/// Whether a reading part way is in order: a root, every later node under
/// an earlier one, and the records still to read announced by nodes read
/// (a sibling only by a node below the root).
pub open spec fn scan_ok(s: LibScan) -> bool {
    &&& s.nodes.len() >= 1
    &&& forall|k: int| 1 <= k < s.nodes.len() ==> (#[trigger] s.nodes[k]).parent < k
    &&& forall|j: int| 0 <= j < s.slots.len() ==> match #[trigger] s.slots[j] {
        LibSlot::Child(q) => q < s.nodes.len(),
        LibSlot::Sibling(q) => 1 <= q < s.nodes.len(),
    }
}

/// A step of reading keeps the reading in order.
pub proof fn lemma_scan_ok_step(data: Seq<u8>, max: nat, s: LibScan)
    requires
        scan_ok(s),
        s.slots.len() > 0,
        s.nodes.len() < NO_NODE,
    ensures
        scan_ok(scan_step(data, max, s)),
{
    let s1 = scan_step(data, max, s);
    if !(s.nodes.len() >= max || s.off + 1 >= data.len()) {
        let k = s.nodes.len() as int;
        assert(s.slots[s.slots.len() - 1] == s.slots.last());
        assert forall|j: int| 0 <= j < s1.slots.len() implies match #[trigger] s1.slots[j] {
            LibSlot::Child(q) => q < s1.nodes.len(),
            LibSlot::Sibling(q) => 1 <= q < s1.nodes.len(),
        } by {
            if j < s.slots.len() - 1 {
                assert(s1.slots[j] == s.slots[j]);
            }
        }
        assert forall|i: int| 1 <= i < s1.nodes.len() implies (#[trigger] s1.nodes[i]).parent < i by {
            if i < k {
                assert(s1.nodes[i].parent == s.nodes[i].parent);
            }
        }
    } else {
        assert forall|j: int| 0 <= j < s1.slots.len() implies match #[trigger] s1.slots[j] {
            LibSlot::Child(q) => q < s1.nodes.len(),
            LibSlot::Sibling(q) => 1 <= q < s1.nodes.len(),
        } by {
            assert(s1.slots[j] == s.slots[j]);
        }
    }
}

/// Reading on keeps the nodes read so far (their moves and parents) and
/// reads every later node under an earlier one.
pub proof fn lemma_scan_keeps(data: Seq<u8>, max: nat, s: LibScan)
    requires
        scan_ok(s),
        s.nodes.len() + data.len() + 4 - s.off < NO_NODE,
    ensures
        scan_run(data, max, s).len() >= s.nodes.len(),
        forall|k: int| 0 <= k < s.nodes.len() ==> (#[trigger] scan_run(data, max, s)[k]).parent == s.nodes[k].parent
            && scan_run(data, max, s)[k].x == s.nodes[k].x && scan_run(data, max, s)[k].y == s.nodes[k].y,
        forall|k: int| 1 <= k < scan_run(data, max, s).len() ==> (#[trigger] scan_run(data, max, s)[k]).parent < k,
    decreases data.len() + 4 - s.off, s.slots.len(),
{
    if s.slots.len() > 0 {
        let s1 = scan_step(data, max, s);
        if !(s.nodes.len() >= max || s.off + 1 >= data.len()) {
            lemma_record_end(data, s.off);
            let k = s.nodes.len() as int;
            assert(s.slots[s.slots.len() - 1] == s.slots.last());
            assert forall|j: int| 0 <= j < s1.slots.len() implies match #[trigger] s1.slots[j] {
                LibSlot::Child(q) => q < s1.nodes.len(),
                LibSlot::Sibling(q) => 1 <= q < s1.nodes.len(),
            } by {
                if j < s.slots.len() - 1 {
                    assert(s1.slots[j] == s.slots[j]);
                }
            }
            assert forall|i: int| 1 <= i < s1.nodes.len() implies (#[trigger] s1.nodes[i]).parent < i by {
                if i < k {
                    assert(s1.nodes[i].parent == s.nodes[i].parent);
                }
            }
        } else {
            assert forall|j: int| 0 <= j < s1.slots.len() implies match #[trigger] s1.slots[j] {
                LibSlot::Child(q) => q < s1.nodes.len(),
                LibSlot::Sibling(q) => 1 <= q < s1.nodes.len(),
            } by {
                assert(s1.slots[j] == s.slots[j]);
            }
        }
        lemma_scan_keeps(data, max, s1);
    }
}

/// The root of a library read from a file: no move, no links, no texts.
pub open spec fn lib_root() -> LibEntry {
    LibEntry {
        x: -1i8,
        y: -1i8,
        parent: NO_NODE,
        child: NO_NODE,
        sibling: NO_NODE,
        comment: Seq::empty(),
        text: Seq::empty(),
    }
}

/// The nodes of a `.lib` file (of at least 20 bytes) read with at most
/// `max` nodes: a root, then the records from byte 20 on, the first one
/// read as the root's child. A first record without a move gives its texts
/// to the root instead, and the record after it (if it announces a child)
/// is read as the root's child.
pub open spec fn lib_read(data: Seq<u8>, max: nat) -> Seq<LibEntry> {
    let root = lib_root();
    if 1 >= max || 21 >= data.len() {
        seq![root]
    } else {
        let r0 = read_record(data, 20);
        if r0.x < 0 {
            let root1 = LibEntry { comment: r0.comment, text: r0.text, ..root };
            if r0.has_child {
                scan_run(data, max, LibScan { off: r0.end, nodes: seq![root1], slots: seq![LibSlot::Child(0)] })
            } else {
                seq![root1]
            }
        } else {
            scan_run(data, max, LibScan { off: 20, nodes: seq![root], slots: seq![LibSlot::Child(0)] })
        }
    }
}

/// Whether `h`, one half of a node's packed ids (`NO_TEXT` for none),
/// stands for the string `s` among the stored `texts`: none for an empty
/// string, a stored copy otherwise (none only when its id did not fit in
/// the half, which takes 0xFFFF stored texts).
pub open spec fn half_agrees(h: u32, texts: Seq<Seq<u8>>, s: Seq<u8>) -> bool {
    &&& s.len() == 0 ==> h == NO_TEXT
    &&& h != NO_TEXT ==> h < texts.len() && texts[h as int] == s
    &&& s.len() > 0 && texts.len() <= 0xFFFF ==> h != NO_TEXT
}

/// Whether a node with packed ids `packed` is the entry `e`: same move,
/// same links, and its ids stand for the entry's comment and text.
pub open spec fn entry_agrees(n: RenLibNode, packed: u32, texts: Seq<Seq<u8>>, e: LibEntry) -> bool {
    &&& n.spec_x() == e.x
    &&& n.spec_y() == e.y
    &&& n.parent == e.parent
    &&& n.child == e.child
    &&& n.sibling == e.sibling
    &&& half_agrees(half_id(packed, false), texts, e.comment)
    &&& half_agrees(half_id(packed, true), texts, e.text)
}

/// Whether the nodes (with their packed ids, over the stored texts) are the
/// entries, one for one.
pub open spec fn lib_agrees(nodes: Seq<RenLibNode>, node_texts: Seq<u32>, texts: Seq<Seq<u8>>, es: Seq<LibEntry>) -> bool {
    &&& nodes.len() == es.len()
    &&& node_texts.len() >= nodes.len()
    &&& forall|k: int| 0 <= k < nodes.len() ==> entry_agrees(#[trigger] nodes[k], node_texts[k], texts, es[k])
}

/// Whether `t` keeps the texts of `s` under their ids.
pub open spec fn texts_extend(s: Seq<Seq<u8>>, t: Seq<Seq<u8>>) -> bool {
    &&& s.len() <= t.len()
    &&& forall|i: int| 0 <= i < s.len() ==> #[trigger] t[i] == s[i]
}

proof fn lemma_half_agrees_grow(h: u32, s: Seq<Seq<u8>>, t: Seq<Seq<u8>>, x: Seq<u8>)
    requires
        half_agrees(h, s, x),
        texts_extend(s, t),
    ensures
        half_agrees(h, t, x),
{
}

/// The halves of packed ids: each id below 0xFFFF, none otherwise.
proof fn lemma_packed_halves(c: u32, t: u32)
    ensures
        half_id(packed_ids(c, t), false) == if c < 0xFFFF { c } else { NO_TEXT },
        half_id(packed_ids(c, t), true) == if t < 0xFFFF { t } else { NO_TEXT },
{
    let cid: u32 = if c < 0xFFFF { c } else { 0xFFFF };
    let tid: u32 = if t < 0xFFFF { t } else { 0xFFFF };
    assert((cid | (tid << 16u32)) & 0xFFFF == cid && ((cid | (tid << 16u32)) >> 16u32) & 0xFFFF == tid) by (bit_vector)
        requires
            cid <= 0xFFFF,
            tid <= 0xFFFF,
    ;
    assert(0xFFFF_FFFFu32 & 0xFFFFu32 == 0xFFFFu32 && (0xFFFF_FFFFu32 >> 16u32) & 0xFFFFu32 == 0xFFFFu32) by (bit_vector);
}

/// Whether every link of the nodes is none or points at a node.
pub open spec fn links_ok(nodes: Seq<RenLibNode>) -> bool {
    forall|i: int| 0 <= i < nodes.len() ==> {
        &&& (#[trigger] nodes[i]).parent == NO_NODE || nodes[i].parent < nodes.len()
        &&& nodes[i].child == NO_NODE || nodes[i].child < nodes.len()
        &&& nodes[i].sibling == NO_NODE || nodes[i].sibling < nodes.len()
    }
}

/// Whether every id in the packed pairs is 0xFFFF or a text of the pool.
pub open spec fn text_ids_ok(node_texts: Seq<u32>, pool_len: nat) -> bool {
    forall|i: int| 0 <= i < node_texts.len() ==> {
        &&& ((#[trigger] node_texts[i]) & 0xFFFF == 0xFFFF || (node_texts[i] & 0xFFFF) < pool_len)
        &&& ((node_texts[i] >> 16u32) & 0xFFFF == 0xFFFF || ((node_texts[i] >> 16u32) & 0xFFFF) < pool_len)
    }
}

/// Whether the table sends each hash to a node of that hash.
pub open spec fn table_ok(table: Map<u64, u32>, nodes: Seq<RenLibNode>) -> bool {
    forall|h: u64| #[trigger] table.contains_key(h) ==> table[h] < nodes.len() && nodes[table[h] as int].hash == h
}

/// Every node the table names is a node of a tree of `n` nodes.
pub open spec fn table_in_range(table: Map<u64, u32>, n: nat) -> bool {
    forall|h: u64| #[trigger] table.contains_key(h) ==> table[h] < n
}

impl RenLibParser {
    /// Well-formedness: one pair of ids per node, links and ids in range.
    pub open spec fn wf(&self) -> bool {
        &&& self.text_pool.wf()
        &&& self.node_texts@.len() >= self.nodes@.len()
        &&& links_ok(self.nodes@)
        &&& text_ids_ok(self.node_texts@, self.text_pool.texts().len())
        &&& self.nodes@.len() < NO_NODE
    }

    /// An empty parser that reads at most `max_nodes` nodes, in Shift_JIS.
    pub fn new(max_nodes: usize) -> (p: Self)
        ensures
            p.wf(),
            p.nodes@.len() == 0,
            p.hash_table@.dom() == Set::<u64>::empty(),
            p.max_nodes == max_nodes,
            p.encoding == TextEncoding::ShiftJIS,
            p.text_pool.texts() == Seq::<Seq<u8>>::empty(),
            p.text_pool.buffer@.len() == 0,
            p.text_pool.spans@.len() == 0,
    {
        RenLibParser {
            nodes: Vec::with_capacity(20000),
            hash_table: id_map_new(),
            node_texts: Vec::new(),
            max_nodes,
            encoding: TextEncoding::ShiftJIS,
            text_pool: TextPool::new(),
        }
    }

    /// Sets the encoding of texts.
    pub fn set_encoding(&mut self, encoding: TextEncoding)
        ensures
            final(self).encoding == encoding,
            final(self).nodes == old(self).nodes,
            final(self).node_texts == old(self).node_texts,
            final(self).max_nodes == old(self).max_nodes,
            final(self).text_pool == old(self).text_pool,
            final(self).hash_table == old(self).hash_table,
    {
        self.encoding = encoding;
    }

    /// Reads a zero-terminated string of `data` at `offset` (skipping the
    /// zero and one padding byte when the string's length is even) and files
    /// it in the pool; `NO_TEXT` for an empty string.
    fn extract_string(&mut self, data: &[u8], offset: &mut usize) -> (id: u32)
        requires
            old(self).text_pool.wf(),
            *old(offset) <= data@.len(),
            old(self).text_pool.buffer@.len() + data@.len() - *old(offset) <= u32::MAX,
            old(self).text_pool.spans@.len() + 1 < NO_TEXT,
        ensures
            final(self).text_pool.wf(),
            final(self).nodes == old(self).nodes,
            final(self).node_texts == old(self).node_texts,
            final(self).max_nodes == old(self).max_nodes,
            final(self).encoding == old(self).encoding,
            final(self).hash_table == old(self).hash_table,
            *old(offset) < *final(offset) <= data@.len() || (*old(offset) == data@.len() && *final(offset)
                == data@.len()),
            final(self).text_pool.buffer@.len() - old(self).text_pool.buffer@.len() <= *final(offset) - *old(offset),
            final(self).text_pool.spans@.len() <= old(self).text_pool.spans@.len() + 1,
            final(self).text_pool.texts().len() >= old(self).text_pool.texts().len(),
            forall|i: int| 0 <= i < old(self).text_pool.texts().len() ==> #[trigger] final(self).text_pool.texts()[i] == old(self).text_pool.texts()[i],
            id == NO_TEXT || id < final(self).text_pool.texts().len(),
            *final(offset) == read_str(data@, *old(offset) as int).1,
            id == NO_TEXT <==> read_str(data@, *old(offset) as int).0.len() == 0,
            id != NO_TEXT ==> final(self).text_pool.texts()[id as int] == read_str(data@, *old(offset) as int).0,
    {
        let start = *offset;
        let mut end = start;
        proof {
            lemma_zero_at(data@, start as int);
        }
        while end < data.len() && data[end] != 0
            invariant
                start <= end <= data@.len(),
                zero_at(data@, end as int) == zero_at(data@, start as int),
            decreases data@.len() - end,
        {
            end += 1;
        }
        *offset = end;
        let str_len = end - start;
        let slice = vstd::slice::slice_subrange(data, start, end);
        if *offset < data.len() {
            *offset = *offset + 1;
        }
        if str_len % 2 == 0 {
            if *offset < data.len() {
                *offset = *offset + 1;
            }
        }
        if str_len == 0 {
            NO_TEXT
        } else {
            self.text_pool.get_or_insert(slice)
        }
    }

    /// Reads the record at `offset`: its move, flags, comment and text; adds
    /// the node (unlinked) and its ids. `None` when the node limit is reached
    /// or fewer than two bytes are left.
    fn read_node_from_slice(&mut self, data: &[u8], offset: &mut usize) -> (r: Option<NodeInfo>)
        requires
            old(self).wf(),
            data@.len() + 4 <= usize::MAX,
            *old(offset) <= data@.len() + 2,
            old(self).text_pool.buffer@.len() + data@.len() + 2 - *old(offset) <= u32::MAX,
            old(self).text_pool.spans@.len() + data@.len() + 2 - *old(offset) + 2 < NO_TEXT,
            old(self).nodes@.len() + data@.len() + 2 - *old(offset) + 1 < NO_NODE,
        ensures
            final(self).wf(),
            final(self).max_nodes == old(self).max_nodes,
            final(self).encoding == old(self).encoding,
            final(self).hash_table == old(self).hash_table,
            *final(offset) <= data@.len() + 2,
            final(self).text_pool.buffer@.len() + data@.len() + 2 - *final(offset) <= old(self).text_pool.buffer@.len()
                + data@.len() + 2 - *old(offset),
            final(self).text_pool.spans@.len() + data@.len() + 2 - *final(offset) <= old(self).text_pool.spans@.len()
                + data@.len() + 2 - *old(offset),
            final(self).nodes@.len() + data@.len() + 2 - *final(offset) <= old(self).nodes@.len() + data@.len() + 2
                - *old(offset),
            match r {
                None => final(self).nodes == old(self).nodes && final(self).node_texts == old(self).node_texts
                    && final(self).text_pool == old(self).text_pool && *final(offset) == *old(offset),
                Some(info) => {
                    &&& info.idx == old(self).nodes@.len()
                    &&& final(self).nodes@.len() == old(self).nodes@.len() + 1
                    &&& final(self).node_texts@.len() == old(self).node_texts@.len() + 1
                    &&& final(self).nodes@.drop_last() == old(self).nodes@
                    &&& final(self).nodes@.last().parent == NO_NODE
                    &&& final(self).nodes@.last().child == NO_NODE
                    &&& final(self).nodes@.last().sibling == NO_NODE
                    &&& final(self).nodes@.last().hash == 0
                    &&& final(self).nodes@.last().spec_depth() == 0
                    &&& (final(self).nodes@.last().spec_x(), final(self).nodes@.last().spec_y()) == lib_move(
                        data@[*old(offset) as int],
                    )
                    &&& info.has_child == (data@[*old(offset) + 1] & MASK_NOCHILD == 0)
                    &&& info.has_sibling == (data@[*old(offset) + 1] & MASK_SIBLING != 0)
                    &&& *final(offset) >= *old(offset) + 2
                },
            },
            r is None <==> (old(self).nodes@.len() >= old(self).max_nodes || *old(offset) + 1 >= data@.len()),
            texts_extend(old(self).text_pool.texts(), final(self).text_pool.texts()),
            r is Some ==> ({
                let rec = read_record(data@, *old(offset) as int);
                &&& *final(offset) == rec.end
                &&& final(self).nodes@.last().spec_x() == rec.x
                &&& final(self).nodes@.last().spec_y() == rec.y
                &&& r->0.has_child == rec.has_child
                &&& r->0.has_sibling == rec.has_sibling
                &&& final(self).node_texts@.drop_last() == old(self).node_texts@
                &&& half_agrees(half_id(final(self).node_texts@.last(), false), final(self).text_pool.texts(), rec.comment)
                &&& half_agrees(half_id(final(self).node_texts@.last(), true), final(self).text_pool.texts(), rec.text)
            }),
    {
        if self.nodes.len() >= self.max_nodes || *offset >= data.len() || *offset + 1 >= data.len() {
            return None;
        }
        let ghost pool0 = self.text_pool;
        let ghost off0 = *offset as int;
        let move_byte = data[*offset];
        let flag = data[*offset + 1];
        *offset = *offset + 2;
        proof {
            assert(move_byte & 0x0f <= 15 && move_byte >> 4u8 <= 15) by (bit_vector);
        }
        let (x, y): (i8, i8) = if move_byte == 0 {
            (-1, -1)
        } else {
            (((move_byte & 0x0f) as i8 - 1), ((move_byte >> 4) as i8))
        };
        if (flag & MASK_TEXT) != 0 {
            *offset = *offset + 2;
        }
        let ghost o_c = *offset as int;
        let comment_id = if (flag & MASK_COMMENT) != 0 && *offset <= data.len() {
            self.extract_string(data, offset)
        } else {
            NO_TEXT
        };
        let ghost pool1 = self.text_pool;
        let ghost o_t = *offset as int;
        let text_id = if (flag & MASK_TEXT) != 0 && *offset <= data.len() {
            self.extract_string(data, offset)
        } else {
            NO_TEXT
        };
        let idx = self.nodes.len();
        self.nodes.push(RenLibNode::new(x, y, NO_NODE, NO_NODE, NO_NODE, 0, 0));
        let texts = if comment_id != NO_TEXT || text_id != NO_TEXT {
            let cid = if comment_id < 0xFFFF { comment_id } else { 0xFFFF };
            let tid = if text_id < 0xFFFF { text_id } else { 0xFFFF };
            cid | (tid << 16)
        } else {
            0xFFFF_FFFF
        };
        self.node_texts.push(texts);
        proof {
            let n = self.text_pool.texts().len();
            assert(texts & 0xFFFF == 0xFFFF || (texts & 0xFFFF) < n) by {
                lemma_pack_halves(comment_id, text_id, n);
            }
            assert(links_ok(self.nodes@)) by {
                assert forall|i: int| 0 <= i < self.nodes@.len() implies {
                    &&& (#[trigger] self.nodes@[i]).parent == NO_NODE || self.nodes@[i].parent < self.nodes@.len()
                    &&& self.nodes@[i].child == NO_NODE || self.nodes@[i].child < self.nodes@.len()
                    &&& self.nodes@[i].sibling == NO_NODE || self.nodes@[i].sibling < self.nodes@.len()
                } by {
                    if i < idx {
                        assert(self.nodes@[i] == old(self).nodes@[i]);
                    }
                }
            }
            assert(text_ids_ok(self.node_texts@, self.text_pool.texts().len())) by {
                lemma_pack_halves(comment_id, text_id, n);
                assert forall|i: int| 0 <= i < self.node_texts@.len() implies {
                    &&& ((#[trigger] self.node_texts@[i]) & 0xFFFF == 0xFFFF || (self.node_texts@[i] & 0xFFFF) < n)
                    &&& ((self.node_texts@[i] >> 16u32) & 0xFFFF == 0xFFFF || ((self.node_texts@[i] >> 16u32) & 0xFFFF) < n)
                } by {
                    if i < idx {
                        assert(self.node_texts@[i] == old(self).node_texts@[i]);
                        assert(n >= old(self).text_pool.texts().len());
                    }
                }
            }
            assert(self.nodes@.drop_last() =~= old(self).nodes@);
            assert(self.node_texts@.drop_last() =~= old(self).node_texts@);
            let rec = read_record(data@, off0);
            assert(o_c == if flag & MASK_TEXT != 0 { off0 + 4 } else { off0 + 2 });
            assert(*offset as int == rec.end);
            let t2 = self.text_pool.texts();
            assert(texts_extend(pool1.texts(), t2));
            assert(texts_extend(pool0.texts(), pool1.texts()));
            lemma_packed_halves(comment_id, text_id);
            assert(half_agrees(half_id(texts, false), t2, rec.comment)) by {
                if comment_id != NO_TEXT {
                    assert(t2[comment_id as int] == pool1.texts()[comment_id as int]);
                }
            }
            assert(half_agrees(half_id(texts, true), t2, rec.text));
            let b = move_byte;
            if b != 0 {
                assert(((b & 0x0f) as i8 - 1) as i8 == ((b & 0x0f) as i8 - 1)) by (bit_vector);
            }
        }
        Some(NodeInfo {
            idx,
            has_child: (flag & MASK_NOCHILD) == 0,
            has_sibling: (flag & MASK_SIBLING) != 0,
        })
    }
}

proof fn lemma_pack_halves(c: u32, t: u32, n: nat)
    requires
        c == NO_TEXT || c < n,
        t == NO_TEXT || t < n,
    ensures
        ({
            let p = packed_ids(c, t);
            &&& (p & 0xFFFF == 0xFFFF || (p & 0xFFFF) < n)
            &&& ((p >> 16u32) & 0xFFFF == 0xFFFF || ((p >> 16u32) & 0xFFFF) < n)
        }),
{
    let cid: u32 = if c < 0xFFFF { c } else { 0xFFFF };
    let tid: u32 = if t < 0xFFFF { t } else { 0xFFFF };
    assert((cid | (tid << 16u32)) & 0xFFFF == cid && ((cid | (tid << 16u32)) >> 16u32) & 0xFFFF == tid) by (bit_vector)
        requires
            cid <= 0xFFFF,
            tid <= 0xFFFF,
    ;
    assert(0xFFFF_FFFFu32 & 0xFFFFu32 == 0xFFFFu32 && (0xFFFF_FFFFu32 >> 16u32) & 0xFFFFu32 == 0xFFFFu32) by (bit_vector);
}


/// The I/O error type of std (`std::io::Error`).
#[verifier::external_type_specification]
#[verifier::external_body]
pub struct ExIoError(std::io::Error);

/// Number of frames of `s` still before their move (stage 0).
spec fn stage0_count(s: Seq<StackFrame>) -> nat
    decreases s.len(),
{
    if s.len() == 0 {
        0
    } else {
        stage0_count(s.drop_last()) + if s.last().stage == 0 { 1nat } else { 0nat }
    }
}

proof fn lemma_stage0_push(s: Seq<StackFrame>, f: StackFrame)
    ensures
        stage0_count(s.push(f)) == stage0_count(s) + if f.stage == 0 { 1nat } else { 0nat },
{
    assert(s.push(f).drop_last() =~= s);
}

proof fn lemma_stage0_bound(s: Seq<StackFrame>)
    ensures
        stage0_count(s) <= s.len(),
    decreases s.len(),
{
    if s.len() > 0 {
        lemma_stage0_bound(s.drop_last());
    }
}

/// The records that a frame of the reader still has to read: a frame
/// before its move announces the node's child and sibling, one after it
/// only the sibling.
spec fn frame_slots(f: StackFrame) -> Seq<LibSlot> {
    if f.stage == 0 {
        own_slots(f.node_idx as int, f.has_child, f.has_sibling)
    } else if f.has_sibling {
        seq![LibSlot::Sibling(f.node_idx as u32)]
    } else {
        Seq::empty()
    }
}

/// The records that the frames of the reader still have to read, the top
/// frame's last.
spec fn stack_slots(s: Seq<StackFrame>) -> Seq<LibSlot>
    decreases s.len(),
{
    if s.len() == 0 {
        Seq::empty()
    } else {
        stack_slots(s.drop_last()) + frame_slots(s.last())
    }
}

proof fn lemma_stack_slots_push(s: Seq<StackFrame>, f: StackFrame)
    ensures
        stack_slots(s.push(f)) == stack_slots(s) + frame_slots(f),
{
    assert(s.push(f).drop_last() =~= s);
}

/// Whether two nodes have the same move and links.
spec fn same_shape(a: RenLibNode, b: RenLibNode) -> bool {
    &&& a.spec_x() == b.spec_x()
    &&& a.spec_y() == b.spec_y()
    &&& a.parent == b.parent
    &&& a.child == b.child
    &&& a.sibling == b.sibling
}

proof fn lemma_entry_agrees_grow(n: RenLibNode, packed: u32, s: Seq<Seq<u8>>, t: Seq<Seq<u8>>, e: LibEntry)
    requires
        entry_agrees(n, packed, s, e),
        texts_extend(s, t),
    ensures
        entry_agrees(n, packed, t, e),
{
    lemma_half_agrees_grow(half_id(packed, false), s, t, e.comment);
    lemma_half_agrees_grow(half_id(packed, true), s, t, e.text);
}

/// Nodes of the same moves and links (and the same ids) as nodes that are
/// the entries are the entries too.
proof fn lemma_agrees_same_shape(pre: Seq<RenLibNode>, post: Seq<RenLibNode>, nt: Seq<u32>, texts: Seq<Seq<u8>>, es: Seq<LibEntry>)
    requires
        lib_agrees(pre, nt, texts, es),
        post.len() == pre.len(),
        forall|j: int| 0 <= j < pre.len() ==> same_shape(#[trigger] post[j], pre[j]),
    ensures
        lib_agrees(post, nt, texts, es),
{
    assert forall|k: int| 0 <= k < post.len() implies entry_agrees(#[trigger] post[k], nt[k], texts, es[k]) by {
        assert(same_shape(post[k], pre[k]));
        assert(entry_agrees(pre[k], nt[k], texts, es[k]));
    }
}

/// Reading one record as a new node, linked below its slot's node, keeps
/// the nodes equal to the entries of the reading after that step.
proof fn lemma_agrees_step(
    data: Seq<u8>,
    max: nat,
    ms: LibScan,
    pre: Seq<RenLibNode>,
    pre_t: Seq<u32>,
    pre_texts: Seq<Seq<u8>>,
    post: Seq<RenLibNode>,
    post_t: Seq<u32>,
    post_texts: Seq<Seq<u8>>,
)
    requires
        ms.slots.len() > 0,
        lib_agrees(pre, pre_t, pre_texts, ms.nodes),
        pre_t.len() == pre.len(),
        !(ms.nodes.len() >= max || ms.off + 1 >= data.len()),
        texts_extend(pre_texts, post_texts),
        post_t.len() == pre_t.len() + 1,
        post_t.drop_last() == pre_t,
        post.len() == pre.len() + 1,
        ({
            let rec = read_record(data, ms.off);
            let k = pre.len() as int;
            let (q, is_child) = match ms.slots.last() {
                LibSlot::Child(q) => (q as int, true),
                LibSlot::Sibling(q) => (q as int, false),
            };
            &&& 0 <= q < k
            &&& post[k].spec_x() == rec.x
            &&& post[k].spec_y() == rec.y
            &&& post[k].parent == if is_child { q as u32 } else { pre[q].parent }
            &&& post[k].child == NO_NODE
            &&& post[k].sibling == NO_NODE
            &&& half_agrees(half_id(post_t.last(), false), post_texts, rec.comment)
            &&& half_agrees(half_id(post_t.last(), true), post_texts, rec.text)
            &&& post[q].spec_x() == pre[q].spec_x()
            &&& post[q].spec_y() == pre[q].spec_y()
            &&& post[q].parent == pre[q].parent
            &&& post[q].child == if is_child { k as u32 } else { pre[q].child }
            &&& post[q].sibling == if is_child { pre[q].sibling } else { k as u32 }
            &&& forall|j: int| 0 <= j < k && j != q ==> #[trigger] post[j] == pre[j]
        }),
    ensures
        lib_agrees(post, post_t, post_texts, scan_step(data, max, ms).nodes),
{
    let ms2 = scan_step(data, max, ms);
    let k = pre.len() as int;
    assert(ms2.nodes.len() == post.len());
    assert forall|j: int| 0 <= j < post.len() implies entry_agrees(#[trigger] post[j], post_t[j], post_texts, ms2.nodes[j]) by {
        if j < k {
            assert(post_t[j] == pre_t[j]);
            assert(entry_agrees(pre[j], pre_t[j], pre_texts, ms.nodes[j]));
            lemma_entry_agrees_grow(pre[j], pre_t[j], pre_texts, post_texts, ms.nodes[j]);
        }
    }
}

/// Whether every node of nonzero hash is listed with its hash.
spec fn hashes_listed(nodes: Seq<RenLibNode>, flat: Seq<(u64, u32)>) -> bool {
    forall|k: int| 0 <= k < nodes.len() && (#[trigger] nodes[k]).hash != 0 ==> exists|j: int|
        0 <= j < flat.len() && #[trigger] flat[j] == (nodes[k].hash, k as u32)
}

/// Nodes added with hash 0, and the old ones keeping their hashes, keep
/// every nonzero hash listed.
proof fn lemma_hashes_listed_grow(pre: Seq<RenLibNode>, post: Seq<RenLibNode>, flat: Seq<(u64, u32)>)
    requires
        hashes_listed(pre, flat),
        post.len() >= pre.len(),
        forall|k: int| 0 <= k < pre.len() ==> #[trigger] post[k].hash == pre[k].hash,
        forall|k: int| pre.len() <= k < post.len() ==> #[trigger] post[k].hash == 0,
    ensures
        hashes_listed(post, flat),
{
    assert forall|k: int| 0 <= k < post.len() && (#[trigger] post[k]).hash != 0 implies exists|j: int|
        0 <= j < flat.len() && #[trigger] flat[j] == (post[k].hash, k as u32) by {
        if k < pre.len() {
            assert(post[k].hash == pre[k].hash);
            assert(pre[k].hash != 0);
        } else {
            assert(post[k].hash == 0);
        }
    }
}

/// Giving node `c` a hash and listing it keeps every nonzero hash listed.
proof fn lemma_hashes_listed_set(pre: Seq<RenLibNode>, post: Seq<RenLibNode>, flat: Seq<(u64, u32)>, c: int)
    requires
        hashes_listed(pre, flat),
        post.len() == pre.len(),
        0 <= c < pre.len(),
        forall|k: int| 0 <= k < pre.len() && k != c ==> #[trigger] post[k].hash == pre[k].hash,
    ensures
        hashes_listed(post, flat.push((post[c].hash, c as u32))),
{
    let f2 = flat.push((post[c].hash, c as u32));
    assert forall|k: int| 0 <= k < post.len() && (#[trigger] post[k]).hash != 0 implies exists|j: int|
        0 <= j < f2.len() && #[trigger] f2[j] == (post[k].hash, k as u32) by {
        if k == c {
            assert(f2[flat.len() as int] == (post[k].hash, k as u32));
        } else {
            assert(post[k].hash == pre[k].hash);
            assert(pre[k].hash != 0);
            let j = choose|j: int| 0 <= j < flat.len() && #[trigger] flat[j] == (pre[k].hash, k as u32);
            assert(f2[j] == flat[j]);
        }
    }
}

/// Whether cell (x, y) of the board is free to play.
fn cell_free(board: &Board, x: i8, y: i8) -> (r: bool)
    requires
        0 <= x < 15,
        0 <= y < 15,
    ensures
        r == !occupied_bit(board.occupied@, y * 15 + x),
{
    let idx = (y as usize) * 15 + (x as usize);
    let w = board.occupied[idx / 64];
    let b = (idx % 64) as u64;
    proof {
        assert((w & (1u64 << b)) == 0 <==> !((w >> b) & 1 == 1)) by (bit_vector)
            requires
                b < 64,
        ;
    }
    (w & (1u64 << b)) == 0
}

/// A board met while reading a `.lib` file: occupancy bits, the eight
/// hashes, the number of moves made, and whether the last node's move was
/// played.
pub struct ReadPos {
    pub occupied: Seq<u64>,
    pub hashes: Seq<u64>,
    pub count: int,
    pub played: bool,
}

/// The board after the side to move puts a stone on (x, y): its bit set,
/// its keys (for the colour the move count gives) xored into the hashes,
/// one move more.
pub open spec fn pos_placed(p: ReadPos, x: int, y: int) -> ReadPos {
    let idx = y * 15 + x;
    ReadPos {
        occupied: p.occupied.update(idx / 64, p.occupied[idx / 64] | (1u64 << ((idx % 64) as u64))),
        hashes: Seq::new(8, |t: int| p.hashes[t] ^ key_value(transformed_index(x, y, t), p.count % 2)),
        count: p.count + 1,
        played: true,
    }
}

/// The board after a node's move (x, y): a pass (x < 0) counts as a move;
/// a stone goes on an empty cell of the board; any other move is not
/// played.
pub open spec fn pos_step(p: ReadPos, x: i8, y: i8) -> ReadPos {
    if x < 0 {
        ReadPos { count: p.count + 1, played: true, ..p }
    } else if x < 15 && 0 <= y < 15 && !occupied_bit(p.occupied, y * 15 + x) {
        pos_placed(p, x as int, y as int)
    } else {
        ReadPos { played: false, ..p }
    }
}

/// The board at node `k` of the entries read from a file, starting from
/// the board `start`: the board at its parent after its move; the root's
/// is `start`, with no move played.
pub open spec fn read_pos(es: Seq<LibEntry>, k: int, start: ReadPos) -> ReadPos
    decreases k,
{
    if k <= 0 || k >= es.len() || es[k].parent as int >= k {
        ReadPos { played: false, ..start }
    } else {
        pos_step(read_pos(es, es[k].parent as int, start), es[k].x, es[k].y)
    }
}

/// The empty board: nothing occupied, every hash 0, no move made.
pub open spec fn empty_pos() -> ReadPos {
    ReadPos { occupied: seq![0u64, 0u64, 0u64, 0u64], hashes: Seq::new(8, |t: int| 0u64), count: 0, played: false }
}

/// The board `b` (no move counted as just played).
pub open spec fn board_pos(b: Board) -> ReadPos {
    ReadPos { occupied: b.occupied@, hashes: b.hashes@, count: b.move_count as int, played: false }
}

/// Whether board `b` is the board `p`.
pub open spec fn board_is(b: Board, p: ReadPos) -> bool {
    &&& b.occupied@ == p.occupied
    &&& b.hashes@ == p.hashes
    &&& b.move_count == p.count
}

/// Whether `m` is the least of the eight values of `hs`.
pub open spec fn least8(hs: Seq<u64>, m: u64) -> bool {
    &&& exists|t: int| 0 <= t < 8 && #[trigger] hs[t] == m
    &&& forall|t: int| 0 <= t < 8 ==> m <= #[trigger] hs[t]
}

/// Whether node `n` has the hash and depth that its board `p` gives: the
/// least of the eight hashes and the number of moves (as a byte) when its
/// move was played, both 0 otherwise.
pub open spec fn hashed_as(n: RenLibNode, p: ReadPos) -> bool {
    if p.played {
        &&& least8(p.hashes, n.hash)
        &&& n.spec_depth() == p.count as u8
    } else {
        n.hash == 0 && n.spec_depth() == 0
    }
}

/// The board at frame `f` of the reader: before its node's move at stage
/// 0, after it at stage 1.
spec fn top_board(es: Seq<LibEntry>, st0: ReadPos, f: StackFrame) -> ReadPos {
    if f.stage == 0 {
        read_pos(es, es[f.node_idx as int].parent as int, st0)
    } else {
        read_pos(es, f.node_idx as int, st0)
    }
}

/// Whether node `k` is the node of the top frame, before its move.
spec fn fresh_top(stack: Seq<StackFrame>, k: int) -> bool {
    stack.len() > 0 && stack.last().stage == 0 && k == stack.last().node_idx
}

/// Whether the reader's frames, board and node hashes are those of reading
/// the entries `es` from the board `st0`: the frames form a line down from
/// a child of the root (all but the top past their move, each knowing
/// whether its move was played), the board is the one at the top frame,
/// and every node but the top one before its move has the hash and depth
/// of its board (that one has none yet).
#[verifier::opaque]
spec fn walk_ok(es: Seq<LibEntry>, st0: ReadPos, stack: Seq<StackFrame>, b: Board, nodes: Seq<RenLibNode>) -> bool {
    &&& nodes.len() <= es.len()
    &&& forall|m: int| 0 <= m < stack.len() ==> (#[trigger] stack[m]).node_idx < nodes.len()
    &&& forall|m: int| 0 <= m < stack.len() - 1 ==> (#[trigger] stack[m]).stage == 1
    &&& stack.len() > 0 ==> es[stack[0].node_idx as int].parent == 0
    &&& forall|m: int| 1 <= m < stack.len() ==> es[(#[trigger] stack[m]).node_idx as int].parent == stack[m - 1].node_idx
    &&& forall|m: int| 0 <= m < stack.len() && (#[trigger] stack[m]).stage == 1 ==> stack[m].made_move == read_pos(
        es,
        stack[m].node_idx as int,
        st0,
    ).played
    &&& stack.len() > 0 ==> board_is(b, top_board(es, st0, stack.last()))
    &&& forall|k: int| 0 <= k < nodes.len() && !fresh_top(stack, k) ==> hashed_as(#[trigger] nodes[k], read_pos(es, k, st0))
    &&& forall|k: int| 0 <= k < nodes.len() && fresh_top(stack, k) ==> (#[trigger] nodes[k]).hash == 0 && nodes[k].spec_depth() == 0
}

/// The boards met while reading keep four occupancy words and eight
/// hashes.
proof fn lemma_read_pos_lens(es: Seq<LibEntry>, k: int, st0: ReadPos)
    requires
        st0.occupied.len() == 4,
        st0.hashes.len() == 8,
        st0.count >= 0,
    ensures
        read_pos(es, k, st0).occupied.len() == 4,
        read_pos(es, k, st0).hashes.len() == 8,
        read_pos(es, k, st0).count >= 0,
    decreases k,
{
    if !(k <= 0 || k >= es.len() || es[k].parent as int >= k) {
        lemma_read_pos_lens(es, es[k].parent as int, st0);
    }
}

/// The step of a node does not look at whether the move before was played.
proof fn lemma_step_same(p: ReadPos, q: ReadPos, x: i8, y: i8)
    requires
        p.occupied == q.occupied,
        p.hashes == q.hashes,
        p.count == q.count,
    ensures
        pos_step(p, x, y) == pos_step(q, x, y),
{
}

/// Below the root, the board at a node is its parent's after its move.
proof fn lemma_read_pos_step(es: Seq<LibEntry>, k: int, st0: ReadPos)
    requires
        1 <= k < es.len(),
        es[k].parent < k,
    ensures
        read_pos(es, k, st0) == pos_step(read_pos(es, es[k].parent as int, st0), es[k].x, es[k].y),
{
}

/// Playing the top node's move (stage 0 to stage 1) keeps the reading in
/// step.
proof fn lemma_walk_play(
    es: Seq<LibEntry>,
    st0: ReadPos,
    rest: Seq<StackFrame>,
    f0: StackFrame,
    f1: StackFrame,
    b0: Board,
    b1: Board,
    n0: Seq<RenLibNode>,
    n1: Seq<RenLibNode>,
)
    requires
        walk_ok(es, st0, rest.push(f0), b0, n0),
        f0.stage == 0,
        f1.stage == 1,
        f1.node_idx == f0.node_idx,
        1 <= f0.node_idx,
        es[f0.node_idx as int].parent < f0.node_idx,
        ({
            let k = f0.node_idx as int;
            let p = pos_step(board_pos(b0), n0[k].spec_x(), n0[k].spec_y());
            &&& n0[k].spec_x() == es[k].x
            &&& n0[k].spec_y() == es[k].y
            &&& board_is(b1, p)
            &&& f1.made_move == p.played
            &&& (p.played ==> hashed_as(n1[k], p))
            &&& (!p.played ==> n1[k] == n0[k])
        }),
        n1.len() == n0.len(),
        forall|j: int| 0 <= j < n0.len() && j != f0.node_idx ==> #[trigger] n1[j] == n0[j],
    ensures
        walk_ok(es, st0, rest.push(f1), b1, n1),
        board_is(b1, read_pos(es, f0.node_idx as int, st0)),
{
    reveal(walk_ok);
    let k = f0.node_idx as int;
    let s0 = rest.push(f0);
    let s1 = rest.push(f1);
    let par = read_pos(es, es[k].parent as int, st0);
    assert(s0.last() == f0);
    assert(board_is(b0, par));
    lemma_step_same(board_pos(b0), par, es[k].x, es[k].y);
    lemma_read_pos_step(es, k, st0);
    assert forall|m: int| 0 <= m < s1.len() implies (#[trigger] s1[m]).node_idx < n1.len() by {
        assert(s0[m].node_idx == s1[m].node_idx);
    }
    assert forall|m: int| 0 <= m < s1.len() - 1 implies (#[trigger] s1[m]).stage == 1 by {
        assert(s0[m] == s1[m]);
    }
    assert forall|m: int| 1 <= m < s1.len() implies es[(#[trigger] s1[m]).node_idx as int].parent == s1[m - 1].node_idx by {
        assert(s0[m].node_idx == s1[m].node_idx);
        assert(s0[m - 1].node_idx == s1[m - 1].node_idx);
    }
    assert forall|m: int| 0 <= m < s1.len() && (#[trigger] s1[m]).stage == 1 implies s1[m].made_move == read_pos(
        es,
        s1[m].node_idx as int,
        st0,
    ).played by {
        if m < s1.len() - 1 {
            assert(s0[m] == s1[m]);
        }
    }
    assert forall|j: int| 0 <= j < n1.len() && !fresh_top(s1, j) implies hashed_as(#[trigger] n1[j], read_pos(es, j, st0)) by {
        if j != k {
            assert(!fresh_top(s0, j));
            assert(n1[j] == n0[j]);
        } else {
            assert(fresh_top(s0, j));
        }
    }
    if s1.len() > 0 {
        assert(s1[0].node_idx == s0[0].node_idx);
    }
}

/// Reading a node as the child of the top frame's node (or as the sibling
/// of the frame just left, under the same parent) and putting it on top
/// keeps the reading in step.
proof fn lemma_walk_push(
    es: Seq<LibEntry>,
    st0: ReadPos,
    stk: Seq<StackFrame>,
    c: StackFrame,
    b: Board,
    n0: Seq<RenLibNode>,
    n1: Seq<RenLibNode>,
)
    requires
        walk_ok(es, st0, stk, b, n0),
        stk.len() > 0 ==> stk.last().stage == 1,
        c.stage == 0,
        c.node_idx == n0.len(),
        n1.len() == n0.len() + 1,
        n1.len() <= es.len(),
        n1.len() < NO_NODE,
        es[c.node_idx as int].parent == if stk.len() > 0 { stk.last().node_idx as u32 } else { 0u32 },
        board_is(b, read_pos(es, es[c.node_idx as int].parent as int, st0)),
        forall|j: int| 0 <= j < n0.len() ==> (#[trigger] n1[j]).hash == n0[j].hash && n1[j].move_info == n0[j].move_info,
        n1[c.node_idx as int].hash == 0,
        n1[c.node_idx as int].spec_depth() == 0,
    ensures
        walk_ok(es, st0, stk.push(c), b, n1),
{
    reveal(walk_ok);
    let s1 = stk.push(c);
    assert forall|m: int| 0 <= m < s1.len() implies (#[trigger] s1[m]).node_idx < n1.len() by {
        if m < stk.len() {
            assert(s1[m] == stk[m]);
        }
    }
    assert forall|m: int| 0 <= m < s1.len() - 1 implies (#[trigger] s1[m]).stage == 1 by {
        assert(s1[m] == stk[m]);
        if m < stk.len() - 1 {
        } else {
            assert(stk.last() == stk[m]);
        }
    }
    assert forall|m: int| 1 <= m < s1.len() implies es[(#[trigger] s1[m]).node_idx as int].parent == s1[m - 1].node_idx by {
        assert(s1[m - 1] == stk[m - 1]);
        if m < stk.len() {
            assert(s1[m] == stk[m]);
        } else {
            assert(stk.last() == stk[m - 1]);
            assert(stk[m - 1].node_idx < n0.len());
        }
    }
    assert forall|m: int| 0 <= m < s1.len() && (#[trigger] s1[m]).stage == 1 implies s1[m].made_move == read_pos(
        es,
        s1[m].node_idx as int,
        st0,
    ).played by {
        assert(s1[m] == stk[m]);
    }
    assert forall|j: int| 0 <= j < n1.len() && !fresh_top(s1, j) implies hashed_as(#[trigger] n1[j], read_pos(es, j, st0)) by {
        assert(j < n0.len());
        assert(!fresh_top(stk, j));
        assert(hashed_as(n0[j], read_pos(es, j, st0)));
        assert(n1[j].spec_depth() == n0[j].spec_depth());
    }
    assert forall|j: int| 0 <= j < n1.len() && fresh_top(s1, j) implies (#[trigger] n1[j]).hash == 0 && n1[j].spec_depth() == 0 by {}
    if stk.len() > 0 {
        assert(s1[0] == stk[0]);
    }
}

/// Leaving the top frame past its move, with its move taken back (when it
/// was played), keeps the reading in step; the board is then the one at
/// its parent, the node of the frame below (or the root).
proof fn lemma_walk_undone(
    es: Seq<LibEntry>,
    st0: ReadPos,
    rest: Seq<StackFrame>,
    f1: StackFrame,
    b0: Board,
    b1: Board,
    nodes: Seq<RenLibNode>,
)
    requires
        walk_ok(es, st0, rest.push(f1), b0, nodes),
        f1.stage == 1,
        nodes.len() < NO_NODE,
        st0.occupied.len() == 4,
        st0.hashes.len() == 8,
        st0.count >= 0,
        1 <= f1.node_idx,
        es[f1.node_idx as int].parent < f1.node_idx,
        ({
            let k = f1.node_idx as int;
            let x = nodes[k].spec_x();
            let y = nodes[k].spec_y();
            &&& x == es[k].x
            &&& y == es[k].y
            &&& f1.made_move ==> {
                &&& b1.move_count == if b0.move_count > 0 { b0.move_count - 1 } else { 0 }
                &&& on_board(x as int, y as int) ==> b1.removed_from(b0, x as int, y as int, (b1.move_count % 2) as int)
                &&& !on_board(x as int, y as int) ==> b1.occupied == b0.occupied && b1.hashes == b0.hashes
            }
            &&& !f1.made_move ==> b1 == b0
        }),
    ensures
        walk_ok(es, st0, rest, b1, nodes),
        board_is(b1, read_pos(es, es[f1.node_idx as int].parent as int, st0)),
        rest.len() > 0 ==> rest.last().stage == 1,
        es[f1.node_idx as int].parent == if rest.len() > 0 { rest.last().node_idx as u32 } else { 0u32 },
{
    reveal(walk_ok);
    let s0 = rest.push(f1);
    let k = f1.node_idx as int;
    let par = read_pos(es, es[k].parent as int, st0);
    assert(s0.last() == f1);
    lemma_read_pos_step(es, k, st0);
    lemma_read_pos_lens(es, es[k].parent as int, st0);
    assert(board_is(b0, read_pos(es, k, st0)));
    assert(f1.made_move == read_pos(es, k, st0).played);
    if f1.made_move {
        assert(b0.move_count == par.count + 1);
        assert(b1.move_count == par.count);
        let x = es[k].x;
        let y = es[k].y;
        if x >= 0 {
            lemma_unplace(par, b0, b1, x as int, y as int);
        } else {
            assert(b1.occupied@ =~= par.occupied);
            assert(b1.hashes@ =~= par.hashes);
        }
    }
    assert(board_is(b1, par));
    assert forall|m: int| 0 <= m < rest.len() implies (#[trigger] rest[m]).node_idx < nodes.len() by {
        assert(s0[m] == rest[m]);
    }
    assert forall|m: int| 0 <= m < rest.len() - 1 implies (#[trigger] rest[m]).stage == 1 by {
        assert(s0[m] == rest[m]);
    }
    assert forall|m: int| 1 <= m < rest.len() implies es[(#[trigger] rest[m]).node_idx as int].parent == rest[m - 1].node_idx by {
        assert(s0[m] == rest[m]);
        assert(s0[m - 1] == rest[m - 1]);
    }
    assert forall|m: int| 0 <= m < rest.len() && (#[trigger] rest[m]).stage == 1 implies rest[m].made_move == read_pos(
        es,
        rest[m].node_idx as int,
        st0,
    ).played by {
        assert(s0[m] == rest[m]);
    }
    if rest.len() > 0 {
        assert(s0[rest.len() - 1] == rest.last());
        assert(s0[0] == rest[0]);
        assert(es[s0[rest.len() as int].node_idx as int].parent == s0[rest.len() - 1].node_idx);
    } else {
        assert(s0[0] == f1);
    }
    assert forall|j: int| 0 <= j < nodes.len() && !fresh_top(rest, j) implies hashed_as(#[trigger] nodes[j], read_pos(es, j, st0)) by {
        assert(!fresh_top(s0, j));
    }
}

/// The reading starts in step: a root, the first node under it, not yet
/// played, and the board it started from.
proof fn lemma_walk_start(es: Seq<LibEntry>, st0: ReadPos, stack: Seq<StackFrame>, b: Board, nodes: Seq<RenLibNode>)
    requires
        nodes.len() == 2,
        nodes.len() <= es.len(),
        stack.len() == 1,
        stack[0].stage == 0,
        stack[0].node_idx == 1,
        es[1].parent == 0,
        board_is(b, st0),
        nodes[0].hash == 0 && nodes[0].spec_depth() == 0,
        nodes[1].hash == 0 && nodes[1].spec_depth() == 0,
    ensures
        walk_ok(es, st0, stack, b, nodes),
{
    reveal(walk_ok);
}

/// Once every frame is left, every node has the hash and depth of its
/// board.
proof fn lemma_walk_done(es: Seq<LibEntry>, st0: ReadPos, b: Board, nodes: Seq<RenLibNode>)
    requires
        walk_ok(es, st0, Seq::empty(), b, nodes),
    ensures
        forall|k: int| 0 <= k < nodes.len() ==> hashed_as(#[trigger] nodes[k], read_pos(es, k, st0)),
{
    reveal(walk_ok);
    assert forall|k: int| 0 <= k < nodes.len() implies hashed_as(#[trigger] nodes[k], read_pos(es, k, st0)) by {
        assert(!fresh_top(Seq::<StackFrame>::empty(), k));
    }
}

/// Taking back a stone just placed on an empty cell gives back the board.
proof fn lemma_unplace(p: ReadPos, b1: Board, b2: Board, x: int, y: int)
    requires
        on_board(x, y),
        p.occupied.len() == 4,
        p.hashes.len() == 8,
        !occupied_bit(p.occupied, y * 15 + x),
        b1.occupied@ == pos_placed(p, x, y).occupied,
        b1.hashes@ == pos_placed(p, x, y).hashes,
        b2.removed_from(b1, x, y, p.count % 2),
    ensures
        b2.occupied@ == p.occupied,
        b2.hashes@ == p.hashes,
{
    let idx = y * 15 + x;
    let w = idx / 64;
    let bit = (idx % 64) as u64;
    let o = p.occupied[w];
    assert((o >> bit) & 1 != 1 && bit < 64 ==> (o | (1u64 << bit)) & !(1u64 << bit) == o) by (bit_vector);
    assert(b1.occupied[w] == o | (1u64 << bit));
    assert(b2.occupied[w] == o);
    assert forall|v: int| 0 <= v < 4 implies #[trigger] b2.occupied@[v] == p.occupied[v] by {
        if v != w {
            assert(b1.occupied@[v] == p.occupied[v]);
        }
    }
    assert(b2.occupied@ =~= p.occupied);
    assert forall|t: int| 0 <= t < 8 implies #[trigger] b2.hashes@[t] == p.hashes[t] by {
        let h = p.hashes[t];
        let k = key_value(transformed_index(x, y, t), p.count % 2);
        assert(b1.hashes@[t] == h ^ k);
        assert((h ^ k) ^ k == h) by (bit_vector);
    }
    assert(b2.hashes@ =~= p.hashes);
}

impl RenLibParser {
    /// Plays the move of node `i` on `board` when it can be played (a pass,
    /// or an empty cell of the board) and gives the node the least of the
    /// board's eight hashes and its move count as depth; says whether it
    /// played, and the hash given.
    fn play_node(&mut self, board: &mut Board, i: usize) -> (r: (bool, u64))
        requires
            i < old(self).nodes@.len(),
            old(board).move_count < usize::MAX,
        ensures
            ({
                let p = pos_step(board_pos(*old(board)), old(self).nodes@[i as int].spec_x(), old(self).nodes@[i as int].spec_y());
                &&& board_is(*final(board), p)
                &&& r.0 == p.played
                &&& r.0 ==> hashed_as(final(self).nodes@[i as int], p) && final(self).nodes@[i as int].hash == r.1
                &&& !r.0 ==> final(self).nodes == old(self).nodes
            }),
            final(self).nodes@.len() == old(self).nodes@.len(),
            forall|j: int| 0 <= j < final(self).nodes@.len() && j != i ==> #[trigger] final(self).nodes@[j] == old(self).nodes@[j],
            same_shape(final(self).nodes@[i as int], old(self).nodes@[i as int]),
            final(self).node_texts == old(self).node_texts,
            final(self).text_pool == old(self).text_pool,
            final(self).hash_table == old(self).hash_table,
            final(self).max_nodes == old(self).max_nodes,
            final(self).encoding == old(self).encoding,
    {
        let px = self.nodes[i].x();
        let py = self.nodes[i].y();
        let is_valid = px < 0 || (px >= 0 && px < 15 && py >= 0 && py < 15 && cell_free(board, px, py));
        if is_valid {
            let ghost b0 = *board;
            board.make_move(px, py);
            let hash = board.get_canonical_hash();
            let mut n = self.nodes[i];
            n.hash = hash;
            n.set_depth(board.move_count as u8);
            self.nodes.set(i, n);
            proof {
                let p = pos_step(board_pos(b0), px, py);
                if px >= 0 {
                    assert(on_board(px as int, py as int));
                    assert(board.occupied@ =~= p.occupied);
                    assert(board.hashes@ =~= p.hashes);
                } else {
                    assert(board.occupied@ =~= p.occupied);
                    assert(board.hashes@ =~= p.hashes);
                }
                let f = board.hash_view();
                let t0 = choose|t: int| 0 <= t < 8 && #[trigger] f(t) == hash;
                assert(p.hashes[t0] == hash);
                assert forall|t: int| 0 <= t < 8 implies hash <= #[trigger] p.hashes[t] by {
                    assert(f(t) == board.hashes[t]);
                }
            }
            (true, hash)
        } else {
            (false, 0)
        }
    }
}

impl RenLibParser {
    /// Replaces the links of node `i` that `f` names.
    fn set_link(&mut self, i: usize, which: u8, v: u32)
        requires
            i < old(self).nodes@.len(),
            links_ok(old(self).nodes@),
            v == NO_NODE || v < old(self).nodes@.len(),
        ensures
            links_ok(final(self).nodes@),
            final(self).nodes@.len() == old(self).nodes@.len(),
            forall|j: int| 0 <= j < final(self).nodes@.len() && j != i ==> #[trigger] final(self).nodes@[j] == old(self).nodes@[j],
            final(self).nodes@[i as int].hash == old(self).nodes@[i as int].hash,
            final(self).nodes@[i as int].move_info == old(self).nodes@[i as int].move_info,
            final(self).nodes@[i as int].parent == if which == 0 { v } else { old(self).nodes@[i as int].parent },
            final(self).nodes@[i as int].child == if which == 1 { v } else { old(self).nodes@[i as int].child },
            final(self).nodes@[i as int].sibling == if which == 2 { v } else { old(self).nodes@[i as int].sibling },
            final(self).node_texts == old(self).node_texts,
            final(self).text_pool == old(self).text_pool,
            final(self).max_nodes == old(self).max_nodes,
            final(self).encoding == old(self).encoding,
            final(self).hash_table == old(self).hash_table,
    {
        let mut n = self.nodes[i];
        if which == 0 {
            n.parent = v;
        } else if which == 1 {
            n.child = v;
        } else if which == 2 {
            n.sibling = v;
        }
        self.nodes.set(i, n);
        proof {
            assert forall|j: int| 0 <= j < self.nodes@.len() implies {
                &&& (#[trigger] self.nodes@[j]).parent == NO_NODE || self.nodes@[j].parent < self.nodes@.len()
                &&& self.nodes@[j].child == NO_NODE || self.nodes@[j].child < self.nodes@.len()
                &&& self.nodes@[j].sibling == NO_NODE || self.nodes@[j].sibling < self.nodes@.len()
            } by {
                if j != i {
                    assert(self.nodes@[j] == old(self).nodes@[j]);
                }
            }
        }
    }

    /// Reads a whole `.lib` file (a 20-byte header, then the records in
    /// depth-first order) into a tree under the virtual root 0, playing the
    /// moves on `board` to hash the positions: each node gets the canonical
    /// hash and the depth of its position, and the table sends each hash to
    /// a node of that position. The nodes, with their moves, links and
    /// texts, are those of `lib_read`; each one's hash and depth are those
    /// of its board (`read_pos`, from the board given), and the table sends
    /// each nonzero hash to the last node that has it. A file under 20
    /// bytes changes nothing.
    #[verifier::rlimit(80)]
    #[verifier::spinoff_prover]
    pub fn parse_all(&mut self, data: &[u8], board: &mut Board) -> (r: Result<(), std::io::Error>)
        requires
            old(self).wf(),
            data@.len() + 4 <= usize::MAX,
            old(self).text_pool.buffer@.len() + data@.len() + 2 <= u32::MAX,
            old(self).text_pool.spans@.len() + data@.len() + 4 < NO_TEXT,
            data@.len() + 4 < NO_NODE,
            old(board).move_count + data@.len() + 4 <= usize::MAX,
        ensures
            r is Ok,
            board_is(*final(board), board_pos(*old(board))),
            data@.len() < 20 ==> *final(self) == *old(self),
            data@.len() >= 20 ==> {
                &&& final(self).wf()
                &&& final(self).nodes@.len() >= 1
                &&& table_ok(final(self).hash_table@, final(self).nodes@)
                &&& final(self).max_nodes == old(self).max_nodes
                &&& final(self).encoding == old(self).encoding
                &&& lib_agrees(final(self).nodes@, final(self).node_texts@, final(self).text_pool.texts(), lib_read(data@, old(self).max_nodes as nat))
                &&& forall|k: int| 0 <= k < final(self).nodes@.len() && (#[trigger] final(self).nodes@[k]).hash != 0
                    ==> final(self).hash_table@.contains_key(final(self).nodes@[k].hash)
                    && k <= final(self).hash_table@[final(self).nodes@[k].hash]
                &&& forall|k: int| 0 <= k < final(self).nodes@.len() ==> hashed_as(
                    #[trigger] final(self).nodes@[k],
                    read_pos(lib_read(data@, old(self).max_nodes as nat), k, board_pos(*old(board))),
                )
            },
    {
        if data.len() < 20 {
            return Ok(());
        }
        let mut offset: usize = 20;
        self.nodes.clear();
        self.node_texts.clear();
        id_map_clear(&mut self.hash_table);
        let mut flat_hashes: Vec<(u64, u32)> = Vec::new();
        self.nodes.push(RenLibNode::new(-1, -1, NO_NODE, NO_NODE, NO_NODE, 0, 0));
        self.node_texts.push(0xFFFF_FFFF);
        proof {
            assert(0xFFFF_FFFFu32 & 0xFFFFu32 == 0xFFFFu32 && (0xFFFF_FFFFu32 >> 16u32) & 0xFFFFu32 == 0xFFFFu32) by (bit_vector);
            assert(text_ids_ok(self.node_texts@, self.text_pool.texts().len()));
            assert(links_ok(self.nodes@));
        }
        let ghost pool_base = old(self).text_pool.buffer@.len();
        let ghost spans_base = old(self).text_pool.spans@.len();
        let ghost max = old(self).max_nodes as nat;
        let ghost goal = lib_read(data@, max);
        let ghost ms0 = LibScan { off: 20, nodes: seq![lib_root()], slots: seq![LibSlot::Child(0)] };
        proof {
            assert(half_id(0xFFFF_FFFFu32, false) == NO_TEXT && half_id(0xFFFF_FFFFu32, true) == NO_TEXT) by {
                assert(0xFFFF_FFFFu32 & 0xFFFFu32 == 0xFFFFu32 && (0xFFFF_FFFFu32 >> 16u32) & 0xFFFFu32 == 0xFFFFu32) by (bit_vector);
            }
            assert(entry_agrees(self.nodes@[0], self.node_texts@[0], self.text_pool.texts(), lib_root()));
            assert(lib_agrees(self.nodes@, self.node_texts@, self.text_pool.texts(), ms0.nodes));
        }
        let ghost mut ms_pre = ms0;
        let ghost mut pre_nodes = self.nodes@;
        let ghost mut pre_t = self.node_texts@;
        let ghost mut pre_texts = self.text_pool.texts();
        let mut root_info = match self.read_node_from_slice(data, &mut offset) {
            Some(info) => info,
            None => {
                proof {
                    assert(table_ok(self.hash_table@, self.nodes@));
                    assert(goal == seq![lib_root()]);
                }
                return Ok(());
            },
        };
        let ghost r0 = read_record(data@, 20);
        if self.nodes[root_info.idx].x() < 0 {
            let ghost nt_before = self.node_texts@;
            let texts = self.node_texts[root_info.idx];
            if texts != 0xFFFF_FFFF {
                self.node_texts.set(0, texts);
            }
            self.node_texts.pop();
            let has_child = root_info.has_child;
            self.nodes.pop();
            proof {
                assert(nt_before.len() == 2);
                assert(self.node_texts@ =~= seq![if texts != 0xFFFF_FFFF { texts } else { nt_before[0] }]);
                assert(links_ok(self.nodes@));
                assert(text_ids_ok(self.node_texts@, self.text_pool.texts().len())) by {
                    let n = self.text_pool.texts().len();
                    let v0 = nt_before[0];
                    let v1 = nt_before[1];
                    assert((v0 & 0xFFFF == 0xFFFF || (v0 & 0xFFFF) < n) && ((v0 >> 16u32) & 0xFFFF == 0xFFFF || ((v0 >> 16u32) & 0xFFFF) < n));
                    assert((v1 & 0xFFFF == 0xFFFF || (v1 & 0xFFFF) < n) && ((v1 >> 16u32) & 0xFFFF == 0xFFFF || ((v1 >> 16u32) & 0xFFFF) < n));
                }
            }
            let ghost root1 = LibEntry { comment: r0.comment, text: r0.text, ..lib_root() };
            proof {
                assert(self.node_texts@[0] == texts);
                assert(entry_agrees(self.nodes@[0], self.node_texts@[0], self.text_pool.texts(), root1));
                assert(lib_agrees(self.nodes@, self.node_texts@, self.text_pool.texts(), seq![root1]));
                ms_pre = LibScan { off: r0.end, nodes: seq![root1], slots: seq![LibSlot::Child(0)] };
                pre_nodes = self.nodes@;
                pre_t = self.node_texts@;
                pre_texts = self.text_pool.texts();
            }
            if has_child {
                root_info = match self.read_node_from_slice(data, &mut offset) {
                    Some(info) => info,
                    None => {
                        proof {
                            assert(table_ok(self.hash_table@, self.nodes@));
                            reveal_with_fuel(scan_run, 2);
                            assert(goal == seq![root1]);
                            lemma_agrees_same_shape(self.nodes@, self.nodes@, self.node_texts@, pre_texts, seq![root1]);
                            assert(lib_agrees(self.nodes@, self.node_texts@, self.text_pool.texts(), seq![root1])) by {
                                lemma_entry_agrees_grow(self.nodes@[0], self.node_texts@[0], pre_texts, self.text_pool.texts(), root1);
                            }
                        }
                        return Ok(());
                    },
                };
            } else {
                proof {
                    assert(table_ok(self.hash_table@, self.nodes@));
                    assert(goal == seq![root1]);
                }
                return Ok(());
            }
        }
        let root_idx = root_info.idx;
        self.set_link(0, 1, root_idx as u32);
        self.set_link(root_idx, 0, 0);
        let mut stack: Vec<StackFrame> = Vec::new();
        stack.push(StackFrame {
            node_idx: root_idx,
            stage: 0,
            has_child: root_info.has_child,
            has_sibling: root_info.has_sibling,
            made_move: false,
        });
        let ghost mut ms = scan_step(data@, max, ms_pre);
        proof {
            assert(goal == scan_run(data@, max, ms_pre));
            assert(scan_run(data@, max, ms_pre) == scan_run(data@, max, ms));
            lemma_agrees_step(data@, max, ms_pre, pre_nodes, pre_t, pre_texts, self.nodes@, self.node_texts@, self.text_pool.texts());
            lemma_stack_slots_push(Seq::empty(), stack@[0]);
            assert(Seq::<StackFrame>::empty().push(stack@[0]) =~= stack@);
            assert(ms.slots =~= stack_slots(stack@));
        }
        let ghost count0 = old(board).move_count;
        let ghost mut processed: nat = 0;
        let ghost st0 = board_pos(*old(board));
        proof {
            assert(scan_ok(ms)) by {
                assert forall|j: int| 0 <= j < ms.slots.len() implies match #[trigger] ms.slots[j] {
                    LibSlot::Child(q) => q < ms.nodes.len(),
                    LibSlot::Sibling(q) => 1 <= q < ms.nodes.len(),
                } by {
                    assert(ms.slots[j] == stack_slots(stack@)[j]);
                }
            }
            lemma_scan_keeps(data@, max, ms);
            assert(goal[1].parent == 0);
            assert(self.nodes@[0].hash == 0 && self.nodes@[0].spec_depth() == 0);
            lemma_walk_start(goal, st0, stack@, *board, self.nodes@);
        }
        proof {
            lemma_stage0_push(Seq::empty(), stack@[0]);
            assert(Seq::<StackFrame>::empty().push(stack@[0]) =~= stack@);
        }
        while stack.len() > 0
            invariant
                self.text_pool.wf(),
                self.node_texts@.len() == self.nodes@.len(),
                links_ok(self.nodes@),
                text_ids_ok(self.node_texts@, self.text_pool.texts().len()),
                self.nodes@.len() >= 2,
                self.max_nodes == old(self).max_nodes,
                self.encoding == old(self).encoding,
                self.hash_table@.dom() == Set::<u64>::empty(),
                data@.len() + 4 <= usize::MAX,
                offset <= data@.len() + 2,
                self.text_pool.buffer@.len() + data@.len() + 2 - offset <= pool_base + data@.len() + 2,
                pool_base + data@.len() + 2 <= u32::MAX,
                self.text_pool.spans@.len() + data@.len() + 2 - offset + 2 <= spans_base + data@.len() + 4,
                spans_base + data@.len() + 4 < NO_TEXT,
                self.nodes@.len() + data@.len() + 2 - offset <= data@.len() + 2,
                data@.len() + 4 < NO_NODE,
                forall|j: int| 0 <= j < stack@.len() ==> 1 <= (#[trigger] stack@[j]).node_idx < self.nodes@.len() && stack@[j].stage <= 1,
                forall|j: int| 0 <= j < flat_hashes@.len() ==> (#[trigger] flat_hashes@[j]).1 < self.nodes@.len()
                    && self.nodes@[flat_hashes@[j].1 as int].hash == flat_hashes@[j].0,
                forall|j: int, k: int|
                    0 <= j < flat_hashes@.len() && 0 <= k < stack@.len() && (#[trigger] stack@[k]).stage == 0 ==> (#[trigger] flat_hashes@[j]).1 != stack@[k].node_idx,
                forall|a: int, b: int|
                    0 <= a < b < stack@.len() && (#[trigger] stack@[a]).stage == 0 && (#[trigger] stack@[b]).stage == 0 ==> stack@[a].node_idx != stack@[b].node_idx,
                processed + stage0_count(stack@) + 1 == self.nodes@.len(),
                board.move_count <= count0 + processed,
                count0 + data@.len() + 4 <= usize::MAX,
                max == self.max_nodes,
                goal == lib_read(data@, max),
                scan_run(data@, max, ms) == goal,
                ms.off == offset as int,
                ms.slots == stack_slots(stack@),
                lib_agrees(self.nodes@, self.node_texts@, self.text_pool.texts(), ms.nodes),
                hashes_listed(self.nodes@, flat_hashes@),
                scan_ok(ms),
                st0 == board_pos(*old(board)),
                walk_ok(goal, st0, stack@, *board, self.nodes@),
                stack@.len() == 0 ==> board_is(*board, st0),
            decreases 3 * (data@.len() + 2 - offset) + stage0_count(stack@) + stack@.len(),
        {
            let ghost before = stack@;
            let ghost flat0 = flat_hashes@;
            let mut frame = stack.pop().unwrap();
            let ghost frame0 = frame;
            proof {
                assert(before =~= stack@.push(frame));
                lemma_stage0_push(stack@, frame);
                lemma_stage0_bound(stack@);
                lemma_stack_slots_push(stack@, frame);
            }
            let ghost rest = stack@;
            proof {
                lemma_scan_keeps(data@, max, ms);
            }
            let curr_idx = frame.node_idx;
            let has_child = frame.has_child;
            let has_sibling = frame.has_sibling;
            if frame.stage == 0 {
                let ghost shape0 = self.nodes@;
                let ghost b_before = *board;
                let (applied, hash) = self.play_node(board, curr_idx);
                if applied {
                    flat_hashes.push((hash, curr_idx as u32));
                    proof {
                        lemma_hashes_listed_set(shape0, self.nodes@, flat0, curr_idx as int);
                        assert forall|j: int| 0 <= j < flat_hashes@.len() implies (#[trigger] flat_hashes@[j]).1 < self.nodes@.len()
                            && self.nodes@[flat_hashes@[j].1 as int].hash == flat_hashes@[j].0 by {
                            if j < flat_hashes@.len() - 1 {
                                assert(flat_hashes@[j] == flat0[j]);
                                assert(before[before.len() - 1] == frame0);
                                assert(flat0[j].1 != frame0.node_idx);
                            }
                        }
                    }
                }
                proof {
                    processed = processed + 1;
                    assert(same_shape(self.nodes@[curr_idx as int], shape0[curr_idx as int]));
                    assert forall|j: int| 0 <= j < shape0.len() implies same_shape(#[trigger] self.nodes@[j], shape0[j]) by {
                        if j != curr_idx {
                            assert(self.nodes@[j] == shape0[j]);
                        }
                    }
                    lemma_agrees_same_shape(shape0, self.nodes@, self.node_texts@, self.text_pool.texts(), ms.nodes);
                }
                frame.stage = 1;
                frame.made_move = applied;
                proof {
                    assert(rest.push(frame0) == before);
                    lemma_walk_play(goal, st0, rest, frame0, frame, b_before, *board, shape0, self.nodes@);
                }
                stack.push(frame);
                proof {
                    lemma_stage0_push(before.drop_last(), frame);
                    lemma_stack_slots_push(rest, frame);
                    assert(before.drop_last() =~= rest);
                }
                if has_child {
                    let ghost pre_n = self.nodes@;
                    let ghost pre_nt = self.node_texts@;
                    let ghost pre_tx = self.text_pool.texts();
                    let ghost ms_a = ms;
                    proof {
                        assert(ms.slots.last() == LibSlot::Child(curr_idx as u32));
                        assert(ms.slots.drop_last() =~= stack_slots(stack@));
                    }
                    match self.read_node_from_slice(data, &mut offset) {
                        Some(child_info) => {
                            self.set_link(child_info.idx, 0, curr_idx as u32);
                            self.set_link(curr_idx, 1, child_info.idx as u32);
                            let child_frame = StackFrame {
                                node_idx: child_info.idx,
                                stage: 0,
                                has_child: child_info.has_child,
                                has_sibling: child_info.has_sibling,
                                made_move: false,
                            };
                            let ghost s1 = stack@;
                            stack.push(child_frame);
                            proof {
                                lemma_stage0_push(s1, child_frame);
                                lemma_agrees_step(data@, max, ms_a, pre_n, pre_nt, pre_tx, self.nodes@, self.node_texts@, self.text_pool.texts());
                                lemma_scan_ok_step(data@, max, ms_a);
                                ms = scan_step(data@, max, ms_a);
                                lemma_scan_keeps(data@, max, ms);
                                assert forall|q: int| 0 <= q < pre_n.len() implies (#[trigger] self.nodes@[q]).hash == pre_n[q].hash
                                    && self.nodes@[q].move_info == pre_n[q].move_info by {}
                                assert(goal[child_info.idx as int].parent == curr_idx);
                                lemma_walk_push(goal, st0, s1, child_frame, *board, pre_n, self.nodes@);
                                lemma_stack_slots_push(s1, child_frame);
                                assert forall|k: int| 0 <= k < pre_n.len() implies #[trigger] self.nodes@[k].hash == pre_n[k].hash by {}
                                lemma_hashes_listed_grow(pre_n, self.nodes@, flat_hashes@);
                                assert(ms.slots =~= stack_slots(stack@));
                            }
                        },
                        None => {
                            proof {
                                lemma_scan_ok_step(data@, max, ms_a);
                                ms = scan_step(data@, max, ms_a);
                            }
                        },
                    }
                } else {
                    proof {
                        assert(ms.slots =~= stack_slots(stack@));
                    }
                }
            } else {
                let ghost b_before = *board;
                if frame.made_move {
                    let px = self.nodes[curr_idx].x();
                    let py = self.nodes[curr_idx].y();
                    board.undo_move(px, py);
                }
                proof {
                    assert(rest.push(frame0) == before);
                    lemma_walk_undone(goal, st0, rest, frame0, b_before, *board, self.nodes@);
                    if rest.len() == 0 {
                        assert(board_is(*board, st0));
                    }
                }
                if has_sibling {
                    let ghost pre_n = self.nodes@;
                    let ghost pre_nt = self.node_texts@;
                    let ghost pre_tx = self.text_pool.texts();
                    let ghost ms_a = ms;
                    proof {
                        assert(ms.slots.last() == LibSlot::Sibling(curr_idx as u32));
                        assert(ms.slots.drop_last() =~= stack_slots(stack@));
                    }
                    match self.read_node_from_slice(data, &mut offset) {
                        Some(sib_info) => {
                            let p_idx = self.nodes[curr_idx].parent;
                            self.set_link(sib_info.idx, 0, p_idx);
                            self.set_link(curr_idx, 2, sib_info.idx as u32);
                            let sib_frame = StackFrame {
                                node_idx: sib_info.idx,
                                stage: 0,
                                has_child: sib_info.has_child,
                                has_sibling: sib_info.has_sibling,
                                made_move: false,
                            };
                            let ghost s1 = stack@;
                            stack.push(sib_frame);
                            proof {
                                lemma_stage0_push(s1, sib_frame);
                                lemma_agrees_step(data@, max, ms_a, pre_n, pre_nt, pre_tx, self.nodes@, self.node_texts@, self.text_pool.texts());
                                lemma_scan_ok_step(data@, max, ms_a);
                                ms = scan_step(data@, max, ms_a);
                                lemma_scan_keeps(data@, max, ms);
                                assert forall|q: int| 0 <= q < pre_n.len() implies (#[trigger] self.nodes@[q]).hash == pre_n[q].hash
                                    && self.nodes@[q].move_info == pre_n[q].move_info by {}
                                assert(goal[sib_info.idx as int].parent == goal[curr_idx as int].parent);
                                lemma_walk_push(goal, st0, s1, sib_frame, *board, pre_n, self.nodes@);
                                lemma_stack_slots_push(s1, sib_frame);
                                assert forall|k: int| 0 <= k < pre_n.len() implies #[trigger] self.nodes@[k].hash == pre_n[k].hash by {}
                                lemma_hashes_listed_grow(pre_n, self.nodes@, flat_hashes@);
                                assert(ms.slots =~= stack_slots(stack@));
                            }
                        },
                        None => {
                            proof {
                                lemma_scan_ok_step(data@, max, ms_a);
                                ms = scan_step(data@, max, ms_a);
                            }
                        },
                    }
                } else {
                    proof {
                        assert(ms.slots =~= stack_slots(stack@));
                    }
                }
            }
        }
        proof {
            assert(self.nodes@.len() < NO_NODE);
            assert(ms.slots.len() == 0);
            assert(goal == ms.nodes);
            assert(stack@ =~= Seq::<StackFrame>::empty());
            lemma_walk_done(goal, st0, *board, self.nodes@);
        }
        let ghost unsorted = flat_hashes@;
        par_sort_hash_pairs(&mut flat_hashes);
        proof {
            broadcast use vstd::seq_lib::group_to_multiset_ensures;
            assert forall|j: int| 0 <= j < flat_hashes@.len() implies (#[trigger] flat_hashes@[j]).1 < self.nodes@.len()
                && self.nodes@[flat_hashes@[j].1 as int].hash == flat_hashes@[j].0 by {
                let e = flat_hashes@[j];
                assert(flat_hashes@.contains(e));
                assert(flat_hashes@.to_multiset().contains(e));
                assert(unsorted.to_multiset().contains(e));
                assert(unsorted.contains(e));
                let k = choose|k: int| 0 <= k < unsorted.len() && unsorted[k] == e;
                assert(unsorted[k] == e);
            }
            assert forall|k: int| 0 <= k < self.nodes@.len() && (#[trigger] self.nodes@[k]).hash != 0 implies exists|j: int|
                0 <= j < flat_hashes@.len() && #[trigger] flat_hashes@[j] == (self.nodes@[k].hash, k as u32) by {
                let e = (self.nodes@[k].hash, k as u32);
                let j0 = choose|j: int| 0 <= j < unsorted.len() && #[trigger] unsorted[j] == e;
                assert(unsorted.contains(e));
                assert(unsorted.to_multiset().contains(e));
                assert(flat_hashes@.to_multiset().contains(e));
                assert(flat_hashes@.contains(e));
            }
        }
        let mut i: usize = 0;
        let mut last_hash: Option<u64> = None;
        while i < flat_hashes.len()
            invariant
                i <= flat_hashes@.len(),
                self.text_pool.wf(),
                self.node_texts@.len() == self.nodes@.len(),
                links_ok(self.nodes@),
                text_ids_ok(self.node_texts@, self.text_pool.texts().len()),
                self.nodes@.len() >= 2,
                self.nodes@.len() < NO_NODE,
                self.max_nodes == old(self).max_nodes,
                self.encoding == old(self).encoding,
                forall|j: int| 0 <= j < flat_hashes@.len() ==> (#[trigger] flat_hashes@[j]).1 < self.nodes@.len()
                    && self.nodes@[flat_hashes@[j].1 as int].hash == flat_hashes@[j].0,
                table_ok(self.hash_table@, self.nodes@),
                lib_agrees(self.nodes@, self.node_texts@, self.text_pool.texts(), lib_read(data@, old(self).max_nodes as nat)),
                hashes_listed(self.nodes@, flat_hashes@),
                forall|k: int| 0 <= k < self.nodes@.len() ==> hashed_as(
                    #[trigger] self.nodes@[k],
                    read_pos(lib_read(data@, old(self).max_nodes as nat), k, board_pos(*old(board))),
                ),
                forall|a: int, b: int| 0 <= a < b < flat_hashes@.len() ==> hash_pair_le(#[trigger] flat_hashes@[a], #[trigger] flat_hashes@[b]),
                i == 0 ==> last_hash is None,
                i > 0 ==> last_hash == Some(flat_hashes@[i - 1].0),
                forall|j: int| 0 <= j < i ==> self.hash_table@.contains_key((#[trigger] flat_hashes@[j]).0)
                    && flat_hashes@[j].1 <= self.hash_table@[flat_hashes@[j].0],
                forall|h: u64| #[trigger] self.hash_table@.contains_key(h) ==> exists|f: int|
                    0 <= f < i && #[trigger] flat_hashes@[f] == (h, self.hash_table@[h]),
            decreases flat_hashes@.len() - i,
        {
            let e = flat_hashes[i];
            let ghost t0 = self.hash_table@;
            let fresh = match last_hash {
                Some(h) => h != e.0,
                None => true,
            };
            if fresh {
                id_map_insert(&mut self.hash_table, e.0, e.1);
                last_hash = Some(e.0);
                proof {
                    assert forall|j: int| 0 <= j < i implies (#[trigger] flat_hashes@[j]).0 != e.0 by {
                        if j < i - 1 {
                            assert(hash_pair_le(flat_hashes@[j], flat_hashes@[i - 1]));
                        }
                        assert(hash_pair_le(flat_hashes@[i - 1], flat_hashes@[i as int]));
                    }
                    assert forall|h: u64| #[trigger] self.hash_table@.contains_key(h) implies exists|f: int|
                        0 <= f < i + 1 && #[trigger] flat_hashes@[f] == (h, self.hash_table@[h]) by {
                        if h == e.0 {
                            assert(flat_hashes@[i as int] == (h, self.hash_table@[h]));
                        } else {
                            assert(t0.contains_key(h));
                            let f = choose|f: int| 0 <= f < i && #[trigger] flat_hashes@[f] == (h, t0[h]);
                            assert(flat_hashes@[f] == (h, self.hash_table@[h]));
                        }
                    }
                }
            } else {
                proof {
                    assert(flat_hashes@[i - 1].0 == e.0);
                    assert(self.hash_table@.contains_key(e.0));
                    let f = choose|f: int| 0 <= f < i && #[trigger] flat_hashes@[f] == (e.0, self.hash_table@[e.0]);
                    assert(hash_pair_le(flat_hashes@[f], flat_hashes@[i as int]));
                }
            }
            i += 1;
        }
        proof {
            assert forall|k: int| 0 <= k < self.nodes@.len() && (#[trigger] self.nodes@[k]).hash != 0 implies
                self.hash_table@.contains_key(self.nodes@[k].hash) && k <= self.hash_table@[self.nodes@[k].hash] by {
                let j = choose|j: int| 0 <= j < flat_hashes@.len() && #[trigger] flat_hashes@[j] == (self.nodes@[k].hash, k as u32);
                assert(flat_hashes@[j].0 == self.nodes@[k].hash);
            }
        }
        Ok(())
    }
}


/// Where a database node hangs: its parent, the symmetry that maps the
/// node's board onto the parent's numbering, and the cell of the stone that
/// was added (in the node's own numbering).
pub struct ParentSearchResult {
    pub parent_idx: u32,
    pub inv_t: u8,
    pub rx: i8,
    pub ry: i8,
}

/// Whether the stone lists are well formed: offsets that do not go down and
/// stay inside the data, and stones on the board.
pub open spec fn stones_ok(data: Seq<u8>, index: Seq<u32>, n: int) -> bool {
    &&& index.len() >= n
    &&& forall|i: int| 0 <= i < index.len() ==> #[trigger] index[i] <= data.len()
    &&& forall|i: int, j: int| 0 <= i <= j < index.len() ==> #[trigger] index[i] <= #[trigger] index[j]
    &&& forall|i: int| 0 <= i < data.len() ==> #[trigger] data[i] < 225
}

/// Whether each hash chain runs to older nodes.
pub open spec fn chains_ok(hash_nexts: Seq<u32>, n: int) -> bool {
    &&& hash_nexts.len() >= n
    &&& forall|i: int| 0 <= i < n ==> #[trigger] hash_nexts[i] == NO_NODE || hash_nexts[i] < i
}

/// The stones of node `i`: `data[index[i]..index[i + 1]]` (to the end of
/// the data after the last offset); none when that range is empty or runs
/// past the data.
pub open spec fn stones_of(data: Seq<u8>, index: Seq<u32>, i: int) -> Seq<u8> {
    let start = index[i] as int;
    let end = if i + 1 < index.len() { index[i + 1] as int } else { data.len() as int };
    if start < end && end <= data.len() {
        data.subrange(start, end)
    } else {
        Seq::empty()
    }
}

/// The stones of node `i`: `data[index[i]..index[i + 1]]` (to the end for
/// the last node).
fn node_stones<'a>(data: &'a [u8], index: &[u32], i: usize) -> (s: &'a [u8])
    requires
        stones_ok(data@, index@, i as int + 1),
    ensures
        forall|k: int| 0 <= k < s@.len() ==> #[trigger] s@[k] < 225,
        s@.len() <= data@.len(),
        s@ == stones_of(data@, index@, i as int),
{
    let start = index[i] as usize;
    let end = if i + 1 < index.len() { index[i + 1] as usize } else { data.len() };
    if start < end && end <= data.len() {
        vstd::slice::slice_subrange(data, start, end)
    } else {
        vstd::slice::slice_subrange(data, 0, 0)
    }
}

/// The stones of a list of cells, the first `num_black` black (colour 0),
/// the others white (colour 1).
pub open spec fn cell_stones(cells: Seq<u8>, num_black: int) -> Seq<Stone> {
    Seq::new(cells.len(), |k: int| ((cells[k] % 15) as int, (cells[k] / 15) as int, if k < num_black { 0int } else { 1int }))
}

/// The board of a list of stones, the first `num_black` black.
fn board_of(stones: &[u8], num_black: usize) -> (b: Board)
    requires
        forall|k: int| 0 <= k < stones@.len() ==> #[trigger] stones@[k] < 225,
    ensures
        b.hashes_of(cell_stones(stones@, num_black as int)),
        b.move_count == stones@.len(),
{
    let mut board = Board::new();
    let mut k: usize = 0;
    while k < stones.len()
        invariant
            k <= stones@.len(),
            board.move_count == k,
            forall|j: int| 0 <= j < stones@.len() ==> #[trigger] stones@[j] < 225,
            board.hashes_of(cell_stones(stones@.subrange(0, k as int), num_black as int)),
        decreases stones@.len() - k,
    {
        let val = stones[k];
        let sx = (val % 15) as i8;
        let sy = (val / 15) as i8;
        let color: usize = if k < num_black { 0 } else { 1 };
        let ghost b0 = board;
        board.make_move_with_color(sx, sy, color);
        proof {
            assert(on_board(sx as int, sy as int));
            lemma_placed_hashes(b0, board, cell_stones(stones@.subrange(0, k as int), num_black as int), sx as int, sy as int, color as int);
            assert(cell_stones(stones@.subrange(0, k + 1), num_black as int) =~= cell_stones(stones@.subrange(0, k as int), num_black as int).push(
                (sx as int, sy as int, color as int),
            ));
        }
        k += 1;
    }
    proof {
        assert(stones@.subrange(0, stones@.len() as int) =~= stones@);
    }
    board
}

/// Whether node `p` can be the parent of node `i`: one move less deep, or
/// the root of a node of one move.
pub open spec fn one_up(nodes: Seq<RenLibNode>, p: int, i: int) -> bool {
    nodes[p].spec_depth() + 1 == nodes[i].spec_depth() || (p == 0 && nodes[i].spec_depth() == 1)
}

/// The first node at depth `d` on the hash chain that starts at node `p`
/// (each node leading to the one `nexts` gives), or -1 when it has none.
pub open spec fn chain_at_depth(nodes: Seq<RenLibNode>, nexts: Seq<u32>, p: int, d: int) -> int
    decreases p,
{
    if p < 0 || p >= nodes.len() || p >= nexts.len() {
        -1
    } else if nodes[p].spec_depth() == d {
        p
    } else if nexts[p] == NO_NODE || nexts[p] >= p {
        -1
    } else {
        chain_at_depth(nodes, nexts, nexts[p] as int, d)
    }
}

/// The least, over the symmetries below `k`, of a position's hash with the
/// stone of colour `c` whose cell hashes are `cell` taken out.
pub open spec fn least_taken_hash(stones: Seq<Stone>, cell: [[u64; 2]; 8], c: int, k: int) -> u64
    decreases k,
{
    if k <= 0 {
        u64::MAX
    } else {
        let prev = least_taken_hash(stones, cell, c, k - 1);
        let v = hash_of(stones, k - 1) ^ cell@[k - 1]@[c];
        if v < prev {
            v
        } else {
            prev
        }
    }
}

/// The stones a parent search may take back from a position of depth `d`
/// with `len` stones (black ones first): those of the colour that moved last.
pub open spec fn removable(d: int, len: int) -> (int, int) {
    let nb = (d + 1) / 2;
    if (d - 1) % 2 == 0 {
        (0, if nb < len { nb } else { len })
    } else if nb <= len {
        (nb, len)
    } else {
        (0, 0)
    }
}

/// The first stone from `s` (below `hi`) whose taking back leads, through
/// the table and its hash chain, to a node one move less deep: the stone's
/// place and that node.
pub open spec fn search_from(
    nodes: Seq<RenLibNode>,
    table: Map<u64, u32>,
    nexts: Seq<u32>,
    cells: Seq<[[u64; 2]; 8]>,
    st: Seq<u8>,
    d: int,
    s: int,
    hi: int,
) -> Option<(int, int)>
    decreases hi - s,
{
    if s < 0 || s >= hi {
        None
    } else {
        let h = least_taken_hash(cell_stones(st, (d + 1) / 2), cells[st[s] as int], (d - 1) % 2, 8);
        let p = if table.contains_key(h) { chain_at_depth(nodes, nexts, table[h] as int, d - 1) } else { -1 };
        if p >= 0 {
            Some((s, p))
        } else {
            search_from(nodes, table, nexts, cells, st, d, s + 1, hi)
        }
    }
}

/// The first symmetry from `t` on under which the position `ps` hashes to
/// `target`; 0 when none does.
pub open spec fn first_sym(ps: Seq<Stone>, target: u64, t: int) -> int
    decreases 8 - t,
{
    if t >= 8 {
        0
    } else if hash_of(ps, t) == target {
        t
    } else {
        first_sym(ps, target, t + 1)
    }
}

/// The symmetry that undoes symmetry `t` (the two quarter turns swap).
pub open spec fn inverse_sym(t: int) -> int {
    if t == 1 {
        3
    } else if t == 3 {
        1
    } else {
        t
    }
}

/// What the parent search of a node of depth `d` with stones `st` gives:
/// the node found from the first stone that leads to one, with the
/// symmetry that undoes the first under which the parent's position is
/// this one with that stone taken back, or, for a node of one move, the
/// root.
pub open spec fn parent_search_ok(
    r: Option<ParentSearchResult>,
    nodes: Seq<RenLibNode>,
    table: Map<u64, u32>,
    nexts: Seq<u32>,
    cells: Seq<[[u64; 2]; 8]>,
    data: Seq<u8>,
    index: Seq<u32>,
    st: Seq<u8>,
    d: int,
) -> bool {
    let (lo, hi) = removable(d, st.len() as int);
    match search_from(nodes, table, nexts, cells, st, d, lo, hi) {
        Some((s, p)) => {
            let ps = cell_stones(stones_of(data, index, p), (nodes[p].spec_depth() + 1) / 2);
            let target = hash_of(cell_stones(st, (d + 1) / 2), 0) ^ cells[st[s] as int]@[0]@[(d - 1) % 2];
            &&& r is Some
            &&& r->0.parent_idx == p
            &&& r->0.rx == (st[s] % 15) as i8
            &&& r->0.ry == (st[s] / 15) as i8
            &&& r->0.inv_t == inverse_sym(first_sym(ps, target, 0))
        },
        None => if d == 1 && st.len() > 0 {
            r is Some && r->0.parent_idx == 0 && r->0.inv_t == 0 && r->0.rx == (st[0] % 15) as i8 && r->0.ry == (st[0] / 15) as i8
        } else {
            r is None
        },
    }
}

/// The root of a database: the empty position (hash 0, no moves, no
/// parent), the one node the table files under hash 0, no other node
/// hashing to 0.
pub open spec fn db_root_ok(nodes: Seq<RenLibNode>, table: Map<u64, u32>) -> bool {
    &&& nodes.len() >= 1
    &&& nodes[0].hash == 0
    &&& nodes[0].spec_x() == -1 && nodes[0].spec_y() == -1
    &&& nodes[0].spec_depth() == 0
    &&& nodes[0].parent == NO_NODE
    &&& table.contains_key(0) && table[0] == 0
    &&& forall|i: int| 1 <= i < nodes.len() ==> #[trigger] nodes[i].hash != 0
}

/// The 16-bit number stored low byte first at place `p` of `data`.
pub open spec fn le16_at(data: Seq<u8>, p: int) -> int {
    data[p] + data[p + 1] * 256
}

/// The least of the hashes of `stones` under the symmetries below `k`.
pub open spec fn least_hash(stones: Seq<Stone>, k: int) -> u64
    decreases k,
{
    if k <= 0 {
        u64::MAX
    } else {
        let prev = least_hash(stones, k - 1);
        let v = hash_of(stones, k - 1);
        if v < prev {
            v
        } else {
            prev
        }
    }
}

proof fn lemma_least_hash(stones: Seq<Stone>, k: int)
    requires
        0 <= k,
    ensures
        forall|t: int| 0 <= t < k ==> least_hash(stones, k) <= #[trigger] hash_of(stones, t),
        k > 0 ==> exists|t: int| 0 <= t < k && #[trigger] hash_of(stones, t) == least_hash(stones, k),
    decreases k,
{
    if k > 0 {
        lemma_least_hash(stones, k - 1);
        let v = hash_of(stones, k - 1);
        if v < least_hash(stones, k - 1) || k == 1 {
            if k == 1 {
                assert(least_hash(stones, 0) == u64::MAX);
            }
            assert(hash_of(stones, k - 1) == least_hash(stones, k));
        } else {
            let t0 = choose|t: int| 0 <= t < k - 1 && #[trigger] hash_of(stones, t) == least_hash(stones, k - 1);
            assert(hash_of(stones, t0) == least_hash(stones, k));
        }
    }
}

/// The least of the eight hashes a board holds for `stones` is `least_hash`.
proof fn lemma_canonical_is_least(b: Board, stones: Seq<Stone>, h: u64)
    requires
        b.hashes_of(stones),
        is_min8(b.hash_view(), h),
    ensures
        h == least_hash(stones, 8),
{
    lemma_least_hash(stones, 8);
    let t0 = choose|t: int| 0 <= t < 8 && #[trigger] b.hash_view()(t) == h;
    assert(b.hash_view()(t0) == b.hashes[t0]);
    let t1 = choose|t: int| 0 <= t < 8 && #[trigger] hash_of(stones, t) == least_hash(stones, 8);
    assert(b.hash_view()(t1) == b.hashes[t1]);
    assert(h <= b.hash_view()(t1));
}

/// The nodes (hash, depth) read from a database's records from place `pos`
/// on, after `rec` of `total` records, with `acc` read so far and at most
/// `max` nodes counting the root: a record with no key is skipped, a key of
/// one byte is a record to pass over, and any other record is a position
/// whose least hash under the symmetries makes a node unless it is 0 (the
/// empty board, the root). Reading stops at the record count, the node
/// limit or where the data runs out.
pub open spec fn db_walk(d: Seq<u8>, pos: int, rec: int, total: int, max: int, acc: Seq<(u64, u8)>) -> Seq<(u64, u8)>
    decreases d.len() - pos,
{
    if rec >= total || acc.len() + 1 >= max || pos < 0 || pos + 2 > d.len() {
        acc
    } else {
        let nkb = le16_at(d, pos);
        let p1 = pos + 2;
        if nkb == 0 {
            db_walk(d, p1, rec + 1, total, max, acc)
        } else if p1 + nkb > d.len() {
            acc
        } else if nkb == 1 {
            let p2 = p1 + 1;
            if p2 + 2 > d.len() {
                acc
            } else {
                let nrb = le16_at(d, p2);
                let p3 = if p2 + 2 + nrb <= d.len() { p2 + 2 + nrb } else { d.len() as int };
                db_walk(d, p3, rec + 1, total, max, acc)
            }
        } else {
            let key = d.subrange(p1, p1 + nkb);
            let p2 = p1 + nkb;
            let ns = if nkb >= 3 { (nkb - 3) / 2 } else { 0 };
            let h = least_hash(key_placed(key, (ns + 1) / 2, ns), 8);
            if p2 + 2 > d.len() {
                acc
            } else {
                let nrb = le16_at(d, p2);
                if p2 + 2 + nrb > d.len() {
                    acc
                } else {
                    db_walk(d, p2 + 2 + nrb, rec + 1, total, max, if h != 0 { acc.push((h, ns as u8)) } else { acc })
                }
            }
        }
    }
}

/// The nodes below the root that a database's records give: their hashes
/// and depths, in the order of the records.
pub open spec fn db_nodes(d: Seq<u8>, max: int) -> Seq<(u64, u8)> {
    if d.len() < 4 {
        Seq::empty()
    } else {
        db_walk(d, 4, 0, le32_at(d, 0), max, Seq::empty())
    }
}

/// The table files each node's hash under the newest node that has it.
pub open spec fn table_newest(table: Map<u64, u32>, nodes: Seq<RenLibNode>) -> bool {
    &&& forall|h: u64| #[trigger] table.contains_key(h) ==> table[h] < nodes.len() && nodes[table[h] as int].hash == h
    &&& forall|i: int| 0 <= i < nodes.len() ==> table.contains_key((#[trigger] nodes[i]).hash) && table[nodes[i].hash] >= i
}

/// The nodes below the root are those the records give, in order.
pub open spec fn db_nodes_agree(nodes: Seq<RenLibNode>, read: Seq<(u64, u8)>) -> bool {
    &&& nodes.len() == read.len() + 1
    &&& forall|i: int| 0 <= i < read.len() ==> #[trigger] nodes[i + 1].hash == read[i].0 && nodes[i + 1].spec_depth() == read[i].1
}

/// The 32-bit number stored low byte first at place `p` of `data`.
pub open spec fn le32_at(data: Seq<u8>, p: int) -> int {
    data[p] + data[p + 1] * 256 + data[p + 2] * 65536 + data[p + 3] * 16777216
}

/// The parent the search gives node `i` (see `parent_search_ok`), or
/// `NO_NODE` when it gives none.
pub open spec fn searched_parent(
    nodes: Seq<RenLibNode>,
    table: Map<u64, u32>,
    nexts: Seq<u32>,
    cells: Seq<[[u64; 2]; 8]>,
    data: Seq<u8>,
    index: Seq<u32>,
    i: int,
) -> u32 {
    let d = nodes[i].spec_depth() as int;
    let st = stones_of(data, index, i);
    let (lo, hi) = removable(d, st.len() as int);
    if d == 0 {
        NO_NODE
    } else {
        match search_from(nodes, table, nexts, cells, st, d, lo, hi) {
            Some((s, p)) => p as u32,
            None => if d == 1 && st.len() > 0 { 0 } else { NO_NODE },
        }
    }
}

/// The table of keys seen through each symmetry that the parent search
/// uses: entry [y * 15 + x][t][c] is the key of the image of (x, y) under
/// symmetry `t` for colour `c`.
pub open spec fn zobrist_cells(cells: Seq<[[u64; 2]; 8]>) -> bool {
    &&& cells.len() == 225
    &&& forall|idx: int, t: int, c: int|
        0 <= idx < 225 && 0 <= t < 8 && 0 <= c < 2 ==> #[trigger] cells[idx][t][c] == key_value(transformed_index(idx % 15, idx / 15, t), c)
}

/// What `find_parent` gives node `i`.
pub open spec fn find_parent_ok(
    r: Option<ParentSearchResult>,
    nodes: Seq<RenLibNode>,
    table: Map<u64, u32>,
    nexts: Seq<u32>,
    cells: Seq<[[u64; 2]; 8]>,
    data: Seq<u8>,
    index: Seq<u32>,
    i: int,
) -> bool {
    &&& parent_found_ok(r, i, nodes)
    &&& nodes[i].spec_depth() == 0 ==> r is None
    &&& nodes[i].spec_depth() >= 1 ==> parent_search_ok(r, nodes, table, nexts, cells, data, index, stones_of(data, index, i),
        nodes[i].spec_depth() as int)
}

/// Finds the parent of database node `i`: takes back, one by one, the
/// stones of the colour that moved last, and looks up the least of the
/// eight hashes that remain; the first node of the chain at one move less
/// is the parent. A node of one stone with no such parent hangs under the
/// root. `None` for the root position or when nothing is found.
fn find_parent(
    nodes: &Vec<RenLibNode>,
    hash_table: &FxHashMap<u64, u32>,
    node_stones_data: &[u8],
    node_stones_index: &[u32],
    hash_nexts: &[u32],
    t_table: &Vec<[[u64; 2]; 8]>,
    i: usize,
) -> (r: Option<ParentSearchResult>)
    requires
        1 <= i < nodes@.len(),
        nodes@.len() < NO_NODE,
        t_table@.len() == 225,
        stones_ok(node_stones_data@, node_stones_index@, nodes@.len() as int),
        chains_ok(hash_nexts@, nodes@.len() as int),
        forall|h: u64| #[trigger] hash_table@.contains_key(h) ==> hash_table@[h] < nodes@.len(),
    ensures
        parent_found_ok(r, i as int, nodes@),
        nodes@[i as int].spec_depth() == 0 ==> r is None,
        nodes@[i as int].spec_depth() == 1 && stones_of(node_stones_data@, node_stones_index@, i as int).len() > 0 ==> r is Some,
        nodes@[i as int].spec_depth() >= 1 ==> parent_search_ok(r, nodes@, hash_table@, hash_nexts@, t_table@,
            node_stones_data@, node_stones_index@, stones_of(node_stones_data@, node_stones_index@, i as int),
            nodes@[i as int].spec_depth() as int),
{
    let depth_b = nodes[i].depth();
    if depth_b == 0 {
        return None;
    }
    let stones_b = node_stones(node_stones_data, node_stones_index, i);
    let ghost st = stones_b@;
    let ghost d = depth_b as int;
    let ghost stones_spec = cell_stones(st, (d + 1) / 2);
    let num_black_total = (depth_b as usize + 1) / 2;
    let temp_board = board_of(stones_b, num_black_total);
    let hashes_b = temp_board.hashes;
    let color_to_remove: usize = ((depth_b - 1) % 2) as usize;
    let num_black = (depth_b as usize + 1) / 2;
    let (lo, hi) = if color_to_remove == 0 {
        (0, if num_black < stones_b.len() { num_black } else { stones_b.len() })
    } else {
        if num_black <= stones_b.len() {
            (num_black, stones_b.len())
        } else {
            (0, 0)
        }
    };
    let mut s = lo;
    while s < hi
        invariant
            lo <= s <= hi <= stones_b@.len(),
            1 <= i < nodes@.len(),
            nodes@.len() < NO_NODE,
            t_table@.len() == 225,
            color_to_remove < 2,
            depth_b >= 1,
            depth_b == nodes@[i as int].spec_depth(),
            forall|k: int| 0 <= k < stones_b@.len() ==> #[trigger] stones_b@[k] < 225,
            stones_ok(node_stones_data@, node_stones_index@, nodes@.len() as int),
            chains_ok(hash_nexts@, nodes@.len() as int),
            forall|h: u64| #[trigger] hash_table@.contains_key(h) ==> hash_table@[h] < nodes@.len(),
            st == stones_b@,
            st == stones_of(node_stones_data@, node_stones_index@, i as int),
            d == depth_b as int,
            stones_spec == cell_stones(st, (d + 1) / 2),
            color_to_remove as int == (d - 1) % 2,
            (lo as int, hi as int) == removable(d, st.len() as int),
            forall|t: int| 0 <= t < 8 ==> #[trigger] hashes_b@[t] == hash_of(stones_spec, t),
            search_from(nodes@, hash_table@, hash_nexts@, t_table@, st, d, lo as int, hi as int)
                == search_from(nodes@, hash_table@, hash_nexts@, t_table@, st, d, s as int, hi as int),
        decreases hi - s,
    {
        let val = stones_b[s];
        let rx = (val % 15) as i8;
        let ry = (val / 15) as i8;
        proof {
            assert((val / 15) * 15 + val % 15 == val);
        }
        let cell_hashes = t_table[(ry as usize * 15) + rx as usize];
        let mut min_h: u64 = u64::MAX;
        let mut k: usize = 0;
        while k < 8
            invariant
                k <= 8,
                color_to_remove < 2,
                color_to_remove as int == (d - 1) % 2,
                forall|t: int| 0 <= t < 8 ==> #[trigger] hashes_b@[t] == hash_of(stones_spec, t),
                min_h == least_taken_hash(stones_spec, cell_hashes, color_to_remove as int, k as int),
            decreases 8 - k,
        {
            let h_p_sym = hashes_b[k] ^ cell_hashes[k][color_to_remove];
            if h_p_sym < min_h {
                min_h = h_p_sym;
            }
            k += 1;
        }
        proof {
            assert(cell_hashes == t_table@[st[s as int] as int]);
        }
        match id_map_get(hash_table, min_h) {
            Some(head) => {
                let mut p = head;
                let mut valid_p = NO_NODE;
                while p != NO_NODE
                    invariant
                        p == NO_NODE || p < nodes@.len(),
                        valid_p == NO_NODE || (valid_p < nodes@.len() && nodes@[valid_p as int].spec_depth() == depth_b - 1),
                        nodes@.len() < NO_NODE,
                        depth_b >= 1,
                        chains_ok(hash_nexts@, nodes@.len() as int),
                        valid_p == NO_NODE ==> chain_at_depth(nodes@, hash_nexts@, head as int, d - 1)
                            == (if p == NO_NODE { -1 } else { chain_at_depth(nodes@, hash_nexts@, p as int, d - 1) }),
                        valid_p != NO_NODE ==> valid_p as int == chain_at_depth(nodes@, hash_nexts@, head as int, d - 1),
                        valid_p != NO_NODE ==> p == valid_p,
                        d == depth_b as int,
                    ensures
                        valid_p == NO_NODE ==> p == NO_NODE,
                    decreases if p == NO_NODE { 0 } else { p as int + 1 },
                {
                    if nodes[p as usize].depth() == depth_b - 1 {
                        proof {
                            assert(chain_at_depth(nodes@, hash_nexts@, p as int, d - 1) == p as int);
                        }
                        valid_p = p;
                        break;
                    }
                    let ghost p_old = p;
                    p = hash_nexts[p as usize];
                    proof {
                        assert(chain_at_depth(nodes@, hash_nexts@, p_old as int, d - 1)
                            == (if p == NO_NODE { -1 } else { chain_at_depth(nodes@, hash_nexts@, p as int, d - 1) }));
                    }
                }
                if valid_p != NO_NODE {
                    proof {
                        assert(search_from(nodes@, hash_table@, hash_nexts@, t_table@, st, d, s as int, hi as int)
                            == Some((s as int, valid_p as int)));
                    }
                    let p_idx = valid_p as usize;
                    let target_hash = hashes_b[0] ^ cell_hashes[0][color_to_remove];
                    let p_depth = nodes[p_idx].depth();
                    let p_num_black = (p_depth as usize + 1) / 2;
                    let stones_p = node_stones(node_stones_data, node_stones_index, p_idx);
                    let temp_board_p = board_of(stones_p, p_num_black);
                    let p_hashes = temp_board_p.hashes;
                    let ghost ps = cell_stones(stones_p@, (p_depth as int + 1) / 2);
                    let mut best_t: usize = 0;
                    let mut t: usize = 0;
                    while t < 8
                        invariant_except_break
                            best_t == 0,
                            first_sym(ps, target_hash, 0) == first_sym(ps, target_hash, t as int),
                        invariant
                            t <= 8,
                            forall|q: int| 0 <= q < 8 ==> #[trigger] p_hashes@[q] == hash_of(ps, q),
                        ensures
                            best_t < 8,
                            best_t as int == first_sym(ps, target_hash, 0),
                        decreases 8 - t,
                    {
                        if p_hashes[t] == target_hash {
                            best_t = t;
                            break;
                        }
                        t += 1;
                    }
                    let inv_t: u8 = if best_t == 1 {
                        3
                    } else if best_t == 3 {
                        1
                    } else {
                        best_t as u8
                    };
                    let found = ParentSearchResult { parent_idx: p_idx as u32, inv_t, rx, ry };
                    proof {
                        assert(search_from(nodes@, hash_table@, hash_nexts@, t_table@, st, d, lo as int, hi as int)
                            == Some((s as int, valid_p as int)));
                        assert(found.parent_idx == valid_p);
                        assert(found.rx == (st[s as int] % 15) as i8);
                        assert(found.ry == (st[s as int] / 15) as i8);
                        assert(parent_search_ok(Some(found), nodes@, hash_table@, hash_nexts@, t_table@, node_stones_data@,
                            node_stones_index@, st, d));
                    }
                    return Some(found);
                }
                proof {
                    assert(search_from(nodes@, hash_table@, hash_nexts@, t_table@, st, d, s as int, hi as int)
                        == search_from(nodes@, hash_table@, hash_nexts@, t_table@, st, d, s + 1, hi as int));
                }
            },
            None => {
                proof {
                    assert(search_from(nodes@, hash_table@, hash_nexts@, t_table@, st, d, s as int, hi as int)
                        == search_from(nodes@, hash_table@, hash_nexts@, t_table@, st, d, s + 1, hi as int));
                }
            },
        }
        s += 1;
    }
    if depth_b == 1 && stones_b.len() > 0 {
        let val = stones_b[0];
        return Some(ParentSearchResult { parent_idx: 0, inv_t: 0, rx: (val % 15) as i8, ry: (val / 15) as i8 });
    }
    None
}

/// What `find_parent` promises of its answer for node `i`: another node,
/// one move less deep (or the root, for a node of one move), a symmetry
/// and a cell of the board.
pub open spec fn parent_found_ok(r: Option<ParentSearchResult>, i: int, nodes: Seq<RenLibNode>) -> bool {
    match r {
        Some(p) => {
            &&& p.parent_idx < nodes.len()
            &&& p.parent_idx != i
            &&& one_up(nodes, p.parent_idx as int, i)
            &&& p.inv_t < 8
            &&& 0 <= p.rx < 15
            &&& 0 <= p.ry < 15
        },
        None => true,
    }
}

/// The first node from `i` on whose parent is `p`; `NO_NODE` if none.
pub open spec fn next_with_parent(nodes: Seq<RenLibNode>, p: u32, i: int) -> u32
    decreases nodes.len() - i,
{
    if i >= nodes.len() {
        NO_NODE
    } else if nodes[i].parent == p {
        i as u32
    } else {
        next_with_parent(nodes, p, i + 1)
    }
}

/// Whether the children of each node are the nodes below the root that have
/// it as parent, in order of index (its first child the first of them, and
/// each one's next sibling the next), and a node without parent (the root
/// among them) has no sibling.
pub open spec fn children_in_order(nodes: Seq<RenLibNode>) -> bool {
    &&& forall|p: int| 0 <= p < nodes.len() ==> (#[trigger] nodes[p]).child == next_with_parent(nodes, p as u32, 1)
    &&& forall|i: int| 1 <= i < nodes.len() && (#[trigger] nodes[i]).parent != NO_NODE ==> nodes[i].sibling
        == next_with_parent(nodes, nodes[i].parent, i + 1)
    &&& forall|i: int| 0 <= i < nodes.len() && (#[trigger] nodes[i]).parent == NO_NODE ==> nodes[i].sibling == NO_NODE
    &&& nodes.len() > 0 ==> nodes[0].parent == NO_NODE
}

/// Whether each node below the root that has a parent hangs under another
/// node one move less deep (or under the root, with one move).
pub open spec fn parents_one_up(nodes: Seq<RenLibNode>) -> bool {
    forall|i: int| 1 <= i < nodes.len() && (#[trigger] nodes[i]).parent != NO_NODE ==> {
        &&& nodes[i].parent < nodes.len()
        &&& nodes[i].parent != i
        &&& one_up(nodes, nodes[i].parent as int, i)
    }
}

/// The search depends on the parents alone.
proof fn lemma_next_same(a: Seq<RenLibNode>, b: Seq<RenLibNode>, q: u32, s: int)
    requires
        0 <= s,
        a.len() == b.len(),
        forall|j: int| 0 <= j < a.len() ==> (#[trigger] a[j]).parent == b[j].parent,
    ensures
        next_with_parent(a, q, s) == next_with_parent(b, q, s),
    decreases a.len() - s,
{
    if s < a.len() {
        assert(a[s].parent == b[s].parent);
        lemma_next_same(a, b, q, s + 1);
    }
}

/// Where no node from `s` on has parent `q`, there is none to find; where
/// node `l` does, one is found, no later than `l`.
proof fn lemma_next_bounds(a: Seq<RenLibNode>, q: u32, s: int, l: int)
    requires
        0 <= s,
        a.len() < NO_NODE,
    ensures
        (forall|j: int| s <= j < a.len() ==> (#[trigger] a[j]).parent != q) ==> next_with_parent(a, q, s) == NO_NODE,
        s <= l < a.len() && a[l].parent == q ==> next_with_parent(a, q, s) != NO_NODE
            && s <= next_with_parent(a, q, s) <= l && a[next_with_parent(a, q, s) as int].parent == q,
        next_with_parent(a, q, s) == NO_NODE || (s <= next_with_parent(a, q, s) < a.len() && a[next_with_parent(a, q, s) as int].parent == q),
    decreases a.len() - s,
{
    if s < a.len() {
        lemma_next_bounds(a, q, s + 1, l);
    }
}

/// Giving node `i` the parent `p` (it had none, and no later node has one)
/// makes `i` the node found for `p` where none was found before.
proof fn lemma_next_set(a: Seq<RenLibNode>, b: Seq<RenLibNode>, i: int, p: u32, q: u32, s: int)
    requires
        a.len() == b.len(),
        a.len() < NO_NODE,
        0 <= i < a.len(),
        0 <= s,
        p != NO_NODE,
        q != NO_NODE,
        forall|j: int| i <= j < a.len() ==> (#[trigger] a[j]).parent == NO_NODE,
        forall|j: int| 0 <= j < a.len() && j != i ==> (#[trigger] b[j]).parent == a[j].parent,
        b[i].parent == p,
    ensures
        next_with_parent(b, q, s) == if q == p && s <= i && next_with_parent(a, q, s) == NO_NODE {
            i as u32
        } else {
            next_with_parent(a, q, s)
        },
    decreases a.len() - s,
{
    if s < a.len() {
        lemma_next_set(a, b, i, p, q, s + 1);
        if s == i && q == p {
            lemma_next_bounds(a, q, s + 1, 0);
        }
    }
}

/// Hanging node `i` (which had no parent, like every later node) under
/// node `p` as its last child keeps the children of every node the nodes
/// that have it as parent, in order of index.
proof fn lemma_link_step(a: Seq<RenLibNode>, b: Seq<RenLibNode>, lc: Seq<u32>, lc2: Seq<u32>, i: int, p: int)
    requires
        a.len() == b.len(),
        a.len() < NO_NODE,
        lc.len() == a.len(),
        lc2 == lc.update(p, i as u32),
        1 <= i < a.len(),
        0 <= p < a.len(),
        p != i,
        forall|q: int| i <= q < a.len() ==> (#[trigger] a[q]).parent == NO_NODE && a[q].sibling == NO_NODE,
        forall|pp: int| 0 <= pp < a.len() ==> (#[trigger] a[pp]).child == next_with_parent(a, pp as u32, 1),
        forall|q: int| 1 <= q < i && (#[trigger] a[q]).parent != NO_NODE ==> a[q].sibling == next_with_parent(a, a[q].parent, q + 1),
        forall|pp: int| 0 <= pp < a.len() ==> ((#[trigger] lc[pp]) == NO_NODE <==> a[pp].child == NO_NODE),
        forall|pp: int| 0 <= pp < a.len() && (#[trigger] lc[pp]) != NO_NODE ==> 1 <= lc[pp] < i && a[lc[pp] as int].parent == pp
            && next_with_parent(a, pp as u32, lc[pp] + 1) == NO_NODE,
        forall|k: int| 0 <= k < a.len() && k != i ==> (#[trigger] b[k]).parent == a[k].parent,
        b[i].parent == p,
        forall|k: int| 0 <= k < a.len() && k != p ==> (#[trigger] b[k]).child == a[k].child,
        b[p].child == if a[p].child == NO_NODE { i as u32 } else { a[p].child },
        forall|k: int| 0 <= k < a.len() && (a[p].child == NO_NODE || k != lc[p]) ==> (#[trigger] b[k]).sibling == a[k].sibling,
        a[p].child != NO_NODE ==> b[lc[p] as int].sibling == i,
    ensures
        forall|q: int| i + 1 <= q < b.len() ==> (#[trigger] b[q]).parent == NO_NODE && b[q].sibling == NO_NODE,
        forall|pp: int| 0 <= pp < b.len() ==> (#[trigger] b[pp]).child == next_with_parent(b, pp as u32, 1),
        forall|q: int| 1 <= q <= i && (#[trigger] b[q]).parent != NO_NODE ==> b[q].sibling == next_with_parent(b, b[q].parent, q + 1),
        forall|pp: int| 0 <= pp < b.len() ==> ((#[trigger] lc2[pp]) == NO_NODE <==> b[pp].child == NO_NODE),
        forall|pp: int| 0 <= pp < b.len() && (#[trigger] lc2[pp]) != NO_NODE ==> 1 <= lc2[pp] <= i && b[lc2[pp] as int].parent == pp
            && next_with_parent(b, pp as u32, lc2[pp] + 1) == NO_NODE,
{
    let pu = p as u32;
    let had_child = a[p].child != NO_NODE;
    assert forall|pp: int| 0 <= pp < b.len() implies (#[trigger] b[pp]).child == next_with_parent(b, pp as u32, 1) by {
        lemma_next_set(a, b, i, pu, pp as u32, 1);
    }
    lemma_next_set(a, b, i, pu, pu, i + 1);
    lemma_next_bounds(a, pu, i + 1, 0);
    assert forall|q: int| 1 <= q <= i && (#[trigger] b[q]).parent != NO_NODE implies b[q].sibling == next_with_parent(b, b[q].parent, q + 1) by {
        if q != i {
            let pq = b[q].parent;
            lemma_next_set(a, b, i, pu, pq, q + 1);
            if had_child && q == lc[p] as int {
            } else if pq == pu {
                if had_child {
                    lemma_next_bounds(a, pu, lc[p] + 1, q);
                    lemma_next_bounds(a, pu, q + 1, lc[p] as int);
                } else {
                    lemma_next_bounds(a, pu, 1, q);
                }
            }
        }
    }
    assert forall|pp: int| 0 <= pp < b.len() && (#[trigger] lc2[pp]) != NO_NODE implies 1 <= lc2[pp] <= i
        && b[lc2[pp] as int].parent == pp && next_with_parent(b, pp as u32, lc2[pp] + 1) == NO_NODE by {
        if pp != p {
            lemma_next_set(a, b, i, pu, pp as u32, lc2[pp] + 1);
        }
    }
}

/// Nodes with the same links keep the children in order.
proof fn lemma_order_same(a: Seq<RenLibNode>, b: Seq<RenLibNode>)
    requires
        children_in_order(a),
        a.len() == b.len(),
        forall|k: int| 0 <= k < a.len() ==> (#[trigger] b[k]).parent == a[k].parent && b[k].child == a[k].child
            && b[k].sibling == a[k].sibling,
    ensures
        children_in_order(b),
{
    assert forall|pp: int| 0 <= pp < b.len() implies (#[trigger] b[pp]).child == next_with_parent(b, pp as u32, 1) by {
        lemma_next_same(a, b, pp as u32, 1);
    }
    assert forall|i: int| 1 <= i < b.len() && (#[trigger] b[i]).parent != NO_NODE implies b[i].sibling == next_with_parent(b, b[i].parent, i + 1) by {
        lemma_next_same(a, b, b[i].parent, i + 1);
    }
}

/// `rayon`'s `(1..n).into_par_iter().map(..).collect()` over `find_parent`:
/// the answer for each node 1..n, in order (an indexed parallel iterator
/// collects in order).
#[verifier::external_body]
fn par_find_parents(
    nodes: &Vec<RenLibNode>,
    hash_table: &FxHashMap<u64, u32>,
    node_stones_data: &[u8],
    node_stones_index: &[u32],
    hash_nexts: &[u32],
    t_table: &Vec<[[u64; 2]; 8]>,
) -> (r: Vec<Option<ParentSearchResult>>)
    requires
        2 <= nodes@.len() < NO_NODE,
        t_table@.len() == 225,
        stones_ok(node_stones_data@, node_stones_index@, nodes@.len() as int),
        chains_ok(hash_nexts@, nodes@.len() as int),
        forall|h: u64| #[trigger] hash_table@.contains_key(h) ==> hash_table@[h] < nodes@.len(),
    ensures
        r@.len() == nodes@.len() - 1,
        forall|j: int| 0 <= j < r@.len() ==> parent_found_ok(#[trigger] r@[j], j + 1, nodes@),
        forall|j: int| 0 <= j < r@.len() ==> find_parent_ok(#[trigger] r@[j], nodes@, hash_table@, hash_nexts@, t_table@,
            node_stones_data@, node_stones_index@, j + 1),
{
    (1..nodes.len()).into_par_iter().map(
        |i| find_parent(nodes, hash_table, node_stones_data, node_stones_index, hash_nexts, t_table, i),
    ).collect()
}

/// Size of the work left on a stack of (node, fuel) entries, each fuel
/// worth `base` times the next lower one.
pub open spec fn stack_measure(stack: Seq<(usize, usize)>, base: nat) -> nat
    decreases stack.len(),
{
    if stack.len() == 0 {
        0
    } else {
        power(base, stack.last().1 as nat) + stack_measure(stack.drop_last(), base)
    }
}

/// `b` to the power `e`.
pub open spec fn power(b: nat, e: nat) -> nat
    decreases e,
{
    if e == 0 {
        1
    } else {
        b * power(b, (e - 1) as nat)
    }
}

proof fn lemma_power_pos(b: nat, e: nat)
    requires
        b >= 1,
    ensures
        power(b, e) >= 1,
    decreases e,
{
    if e > 0 {
        lemma_power_pos(b, (e - 1) as nat);
        assert(b * power(b, (e - 1) as nat) >= 1) by (nonlinear_arith)
            requires
                b >= 1,
                power(b, (e - 1) as nat) >= 1,
        ;
    }
}

proof fn lemma_stack_measure_push(stack: Seq<(usize, usize)>, base: nat, e: (usize, usize))
    ensures
        stack_measure(stack.push(e), base) == power(base, e.1 as nat) + stack_measure(stack, base),
{
    assert(stack.push(e).drop_last() =~= stack);
}

impl RenLibParser {
    /// Links the database nodes into a tree from their stones: each node
    /// hangs under the node found by `find_parent` (children in the order of
    /// the nodes), then, from the root down, each node gets the symmetry
    /// that maps it onto the root's numbering and the cell of its stone in
    /// that numbering. Gives the symmetry of each node.
    /// Hangs node `i` under node `p`, after its last child (`last_child`
    /// holds the last child of each node, `NO_NODE` for none).
    fn hang_last(&mut self, i: usize, p: usize, last_child: &mut Vec<u32>)
        requires
            links_ok(old(self).nodes@),
            old(self).nodes@.len() < NO_NODE,
            i < old(self).nodes@.len(),
            p < old(self).nodes@.len(),
            p != i,
            old(last_child)@.len() == old(self).nodes@.len(),
            old(last_child)@[p as int] == NO_NODE <==> old(self).nodes@[p as int].child == NO_NODE,
            old(last_child)@[p as int] == NO_NODE || old(last_child)@[p as int] < old(self).nodes@.len(),
        ensures
            links_ok(final(self).nodes@),
            final(self).nodes@.len() == old(self).nodes@.len(),
            final(last_child)@ == old(last_child)@.update(p as int, i as u32),
            ({
                let a = old(self).nodes@;
                let b = final(self).nodes@;
                let lc = old(last_child)@;
                &&& forall|k: int| 0 <= k < a.len() && k != i ==> (#[trigger] b[k]).parent == a[k].parent
                &&& b[i as int].parent == p
                &&& forall|k: int| 0 <= k < a.len() && k != p ==> (#[trigger] b[k]).child == a[k].child
                &&& b[p as int].child == if a[p as int].child == NO_NODE { i as u32 } else { a[p as int].child }
                &&& forall|k: int| 0 <= k < a.len() && (a[p as int].child == NO_NODE || k != lc[p as int]) ==> (#[trigger] b[k]).sibling
                    == a[k].sibling
                &&& a[p as int].child != NO_NODE ==> b[lc[p as int] as int].sibling == i
                &&& forall|k: int| 0 <= k < a.len() ==> (#[trigger] b[k]).move_info == a[k].move_info && b[k].hash == a[k].hash
            }),
            final(self).node_texts == old(self).node_texts,
            final(self).text_pool == old(self).text_pool,
            final(self).hash_table == old(self).hash_table,
            final(self).max_nodes == old(self).max_nodes,
            final(self).encoding == old(self).encoding,
    {
        self.set_link(i, 0, p as u32);
        if self.nodes[p].child == NO_NODE {
            self.set_link(p, 1, i as u32);
        } else {
            let last = last_child[p] as usize;
            self.set_link(last, 2, i as u32);
        }
        last_child.set(p, i as u32);
    }

    #[verifier::rlimit(80)]
    pub fn reconstruct_tree_optimized(&mut self, node_stones_data: &[u8], node_stones_index: &[u32], hash_nexts: &[u32]) -> (absolute_t: Vec<u8>)
        requires
            old(self).wf(),
            old(self).nodes@.len() + 1 < NO_NODE,
            stones_ok(node_stones_data@, node_stones_index@, old(self).nodes@.len() as int),
            chains_ok(hash_nexts@, old(self).nodes@.len() as int),
            forall|h: u64| #[trigger] old(self).hash_table@.contains_key(h) ==> old(self).hash_table@[h] < old(self).nodes@.len(),
            forall|i: int| 0 <= i < old(self).nodes@.len() ==> (#[trigger] old(self).nodes@[i]).child == NO_NODE,
            forall|i: int| 0 <= i < old(self).nodes@.len() ==> (#[trigger] old(self).nodes@[i]).parent == NO_NODE
                && old(self).nodes@[i].sibling == NO_NODE,
        ensures
            final(self).wf(),
            final(self).nodes@.len() == old(self).nodes@.len(),
            final(self).node_texts == old(self).node_texts,
            final(self).text_pool == old(self).text_pool,
            final(self).hash_table == old(self).hash_table,
            final(self).max_nodes == old(self).max_nodes,
            final(self).encoding == old(self).encoding,
            forall|i: int| 0 <= i < final(self).nodes@.len() ==> #[trigger] final(self).nodes@[i].hash == old(self).nodes@[i].hash,
            absolute_t@.len() == old(self).nodes@.len(),
            forall|i: int| 0 <= i < absolute_t@.len() ==> #[trigger] absolute_t@[i] < 8,
            children_in_order(final(self).nodes@),
            parents_one_up(final(self).nodes@),
            forall|i: int| 0 <= i < final(self).nodes@.len() ==> #[trigger] final(self).nodes@[i].spec_depth() == old(self).nodes@[i].spec_depth(),
            final(self).nodes@.len() > 0 ==> final(self).nodes@[0].parent == NO_NODE,
            final(self).nodes@.len() > 0 ==> final(self).nodes@[0].move_info == old(self).nodes@[0].move_info,
            exists|cells: Seq<[[u64; 2]; 8]>| #[trigger] zobrist_cells(cells) && forall|i: int| 1 <= i < final(self).nodes@.len()
                ==> #[trigger] final(self).nodes@[i].parent == searched_parent(old(self).nodes@, old(self).hash_table@, hash_nexts@, cells,
                node_stones_data@, node_stones_index@, i),
    {
        let num_nodes = self.nodes.len();
        let t_table = Zobrist::transformed_table();
        let mut absolute_t: Vec<u8> = Vec::new();
        let mut z: usize = 0;
        while z < num_nodes
            invariant
                z <= num_nodes,
                absolute_t@.len() == z,
                forall|i: int| 0 <= i < absolute_t@.len() ==> #[trigger] absolute_t@[i] < 8,
            decreases num_nodes - z,
        {
            absolute_t.push(0);
            z += 1;
        }
        if num_nodes < 2 {
            proof {
                assert forall|pp: int| 0 <= pp < num_nodes implies (#[trigger] self.nodes@[pp]).child == next_with_parent(self.nodes@, pp as u32, 1) by {
                    lemma_next_bounds(self.nodes@, pp as u32, 1, 0);
                }
            }
            proof {
                assert(zobrist_cells(t_table@));
            }
            return absolute_t;
        }
        let mut local_rx: Vec<i8> = Vec::new();
        let mut local_ry: Vec<i8> = Vec::new();
        let mut edge_inv_t: Vec<u8> = Vec::new();
        let mut last_child: Vec<u32> = Vec::new();
        z = 0;
        while z < num_nodes
            invariant
                z <= num_nodes,
                local_rx@.len() == z,
                local_ry@.len() == z,
                edge_inv_t@.len() == z,
                last_child@.len() == z,
                forall|i: int| 0 <= i < z ==> #[trigger] edge_inv_t@[i] < 8,
                forall|i: int| 0 <= i < z ==> #[trigger] last_child@[i] == NO_NODE,
            decreases num_nodes - z,
        {
            local_rx.push(0);
            local_ry.push(0);
            edge_inv_t.push(0);
            last_child.push(NO_NODE);
            z += 1;
        }
        let results = par_find_parents(&self.nodes, &self.hash_table, node_stones_data, node_stones_index, hash_nexts, &t_table);
        let ghost n0 = self.nodes@;
        proof {
            assert forall|pp: int| 0 <= pp < num_nodes implies (#[trigger] self.nodes@[pp]).child == next_with_parent(self.nodes@, pp as u32, 1) by {
                lemma_next_bounds(self.nodes@, pp as u32, 1, 0);
            }
        }
        let mut j: usize = 0;
        while j < results.len()
            invariant
                num_nodes == self.nodes@.len(),
                num_nodes >= 2,
                num_nodes + 1 < NO_NODE,
                results@.len() == num_nodes - 1,
                forall|q: int| 0 <= q < results@.len() ==> parent_found_ok(#[trigger] results@[q], q + 1, n0),
                n0.len() == num_nodes,
                j <= results@.len(),
                links_ok(self.nodes@),
                local_rx@.len() == num_nodes,
                local_ry@.len() == num_nodes,
                edge_inv_t@.len() == num_nodes,
                last_child@.len() == num_nodes,
                forall|i: int| 0 <= i < num_nodes ==> #[trigger] edge_inv_t@[i] < 8,
                forall|i: int| 0 <= i < num_nodes ==> #[trigger] last_child@[i] == NO_NODE || last_child@[i] < num_nodes,
                forall|i: int| 0 <= i < num_nodes ==> (#[trigger] self.nodes@[i]).child == NO_NODE || last_child@[i] != NO_NODE,
                forall|i: int| 0 <= i < num_nodes ==> #[trigger] self.nodes@[i].hash == n0[i].hash,
                self.node_texts == old(self).node_texts,
                self.text_pool == old(self).text_pool,
                self.hash_table == old(self).hash_table,
                self.max_nodes == old(self).max_nodes,
                self.encoding == old(self).encoding,
                n0 == old(self).nodes@,
                forall|q: int| 0 <= q < num_nodes ==> (#[trigger] self.nodes@[q]).move_info == n0[q].move_info,
                forall|q: int| j + 1 <= q < num_nodes ==> (#[trigger] self.nodes@[q]).parent == NO_NODE
                    && self.nodes@[q].sibling == NO_NODE,
                self.nodes@[0].parent == NO_NODE,
                forall|q: int| 1 <= q <= j ==> (#[trigger] self.nodes@[q]).parent == match results@[q - 1] {
                    Some(r) => r.parent_idx,
                    None => NO_NODE,
                },
                forall|q: int| 0 <= q < num_nodes && (#[trigger] self.nodes@[q]).parent == NO_NODE ==> self.nodes@[q].sibling == NO_NODE,
                forall|pp: int| 0 <= pp < num_nodes ==> (#[trigger] self.nodes@[pp]).child == next_with_parent(self.nodes@, pp as u32, 1),
                forall|q: int| 1 <= q <= j && (#[trigger] self.nodes@[q]).parent != NO_NODE ==> self.nodes@[q].sibling
                    == next_with_parent(self.nodes@, self.nodes@[q].parent, q + 1),
                forall|pp: int| 0 <= pp < num_nodes ==> ((#[trigger] last_child@[pp]) == NO_NODE <==> self.nodes@[pp].child == NO_NODE),
                forall|pp: int| 0 <= pp < num_nodes && (#[trigger] last_child@[pp]) != NO_NODE ==> 1 <= last_child@[pp] <= j
                    && self.nodes@[last_child@[pp] as int].parent == pp && next_with_parent(self.nodes@, pp as u32, last_child@[pp] + 1)
                    == NO_NODE,
            decreases results@.len() - j,
        {
            let i = j + 1;
            let ghost a = self.nodes@;
            let ghost lc = last_child@;
            match &results[j] {
                Some(r) => {
                    let p_idx = r.parent_idx as usize;
                    edge_inv_t.set(i, r.inv_t);
                    local_rx.set(i, r.rx);
                    local_ry.set(i, r.ry);
                    self.hang_last(i, p_idx, &mut last_child);
                    proof {
                        assert(parent_found_ok(results@[j as int], i as int, n0));
                        lemma_link_step(a, self.nodes@, lc, last_child@, i as int, p_idx as int);
                    }
                },
                None => {},
            }
            j += 1;
        }
        let ghost n1 = self.nodes@;
        proof {
            assert forall|q: int| 1 <= q < num_nodes implies #[trigger] n1[q].parent == searched_parent(n0, old(self).hash_table@,
                hash_nexts@, t_table@, node_stones_data@, node_stones_index@, q) by {
                assert(find_parent_ok(results@[q - 1], n0, old(self).hash_table@, hash_nexts@, t_table@, node_stones_data@,
                    node_stones_index@, q));
            }
            assert forall|i: int| 1 <= i < n1.len() && (#[trigger] n1[i]).parent != NO_NODE implies {
                &&& n1[i].parent < n1.len()
                &&& n1[i].parent != i
                &&& one_up(n1, n1[i].parent as int, i)
            } by {
                assert(parent_found_ok(results@[i - 1], i, n0));
                assert(n1[n1[i].parent as int].move_info == n0[n1[i].parent as int].move_info);
                assert(n1[i].move_info == n0[i].move_info);
            }
            assert(children_in_order(n1));
        }
        let base: usize = num_nodes + 1;
        let mut stack: Vec<(usize, usize)> = Vec::new();
        stack.push((0, num_nodes));
        proof {
            lemma_stack_measure_push(Seq::empty(), base as nat, (0usize, num_nodes));
        }
        while stack.len() > 0
            invariant
                num_nodes == self.nodes@.len(),
                num_nodes >= 2,
                base == num_nodes + 1,
                num_nodes + 1 < NO_NODE,
                links_ok(self.nodes@),
                absolute_t@.len() == num_nodes,
                forall|i: int| 0 <= i < absolute_t@.len() ==> #[trigger] absolute_t@[i] < 8,
                local_rx@.len() == num_nodes,
                local_ry@.len() == num_nodes,
                edge_inv_t@.len() == num_nodes,
                forall|i: int| 0 <= i < num_nodes ==> #[trigger] edge_inv_t@[i] < 8,
                forall|q: int| 0 <= q < stack@.len() ==> (#[trigger] stack@[q]).0 < num_nodes && stack@[q].1 <= num_nodes,
                forall|i: int| 0 <= i < num_nodes ==> #[trigger] self.nodes@[i].hash == n0[i].hash,
                forall|i: int| 0 <= i < num_nodes ==> (#[trigger] self.nodes@[i]).parent == n1[i].parent && self.nodes@[i].child == n1[i].child
                    && self.nodes@[i].sibling == n1[i].sibling && self.nodes@[i].spec_depth() == n0[i].spec_depth(),
                n1.len() == num_nodes,
                self.node_texts == old(self).node_texts,
                self.text_pool == old(self).text_pool,
                self.hash_table == old(self).hash_table,
                self.max_nodes == old(self).max_nodes,
                self.encoding == old(self).encoding,
                n0 == old(self).nodes@,
                children_in_order(n1),
                self.nodes@[0].move_info == n0[0].move_info,
            decreases stack_measure(stack@, base as nat),
        {
            let ghost before = stack@;
            let (curr, fuel) = stack.pop().unwrap();
            let ghost rest = stack@;
            proof {
                assert(before =~= rest.push((curr, fuel)));
                lemma_stack_measure_push(rest, base as nat, (curr, fuel));
            }
            if fuel > 0 {
                proof {
                    lemma_power_pos(base as nat, (fuel - 1) as nat);
                }
                let mut child_opt = self.nodes[curr].child;
                proof {
                    lemma_next_bounds(n1, curr as u32, 1, 0);
                }
                let mut steps: usize = 0;
                while child_opt != NO_NODE && steps < num_nodes
                    invariant
                        num_nodes == self.nodes@.len(),
                        num_nodes >= 2,
                        base == num_nodes + 1,
                        num_nodes + 1 < NO_NODE,
                        links_ok(self.nodes@),
                        child_opt == NO_NODE || child_opt < num_nodes,
                        curr < num_nodes,
                        0 < fuel <= num_nodes,
                        steps <= num_nodes,
                        stack@.len() == rest.len() + steps,
                        stack@.subrange(0, rest.len() as int) == rest,
                        forall|q: int| rest.len() <= q < stack@.len() ==> (#[trigger] stack@[q]).1 == fuel - 1,
                        stack_measure(stack@, base as nat) == stack_measure(rest, base as nat) + steps * power(base as nat, (fuel - 1) as nat),
                        absolute_t@.len() == num_nodes,
                        forall|i: int| 0 <= i < absolute_t@.len() ==> #[trigger] absolute_t@[i] < 8,
                        local_rx@.len() == num_nodes,
                        local_ry@.len() == num_nodes,
                        edge_inv_t@.len() == num_nodes,
                        forall|i: int| 0 <= i < num_nodes ==> #[trigger] edge_inv_t@[i] < 8,
                        forall|q: int| 0 <= q < stack@.len() ==> (#[trigger] stack@[q]).0 < num_nodes && stack@[q].1 <= num_nodes,
                        forall|i: int| 0 <= i < num_nodes ==> #[trigger] self.nodes@[i].hash == n0[i].hash,
                        forall|i: int| 0 <= i < num_nodes ==> (#[trigger] self.nodes@[i]).parent == n1[i].parent && self.nodes@[i].child == n1[i].child
                            && self.nodes@[i].sibling == n1[i].sibling && self.nodes@[i].spec_depth() == n0[i].spec_depth(),
                        n1.len() == num_nodes,
                        self.node_texts == old(self).node_texts,
                        self.text_pool == old(self).text_pool,
                        self.hash_table == old(self).hash_table,
                        self.max_nodes == old(self).max_nodes,
                        self.encoding == old(self).encoding,
                        n0 == old(self).nodes@,
                        children_in_order(n1),
                        self.nodes@[0].move_info == n0[0].move_info,
                        child_opt == NO_NODE || child_opt >= 1,
                    decreases num_nodes - steps,
                {
                    let c_idx = child_opt as usize;
                    let t_to_root = Zobrist::compose_t(edge_inv_t[c_idx] as usize, absolute_t[curr] as usize);
                    absolute_t.set(c_idx, t_to_root as u8);
                    let rx = local_rx[c_idx];
                    let ry = local_ry[c_idx];
                    if rx < 0 || ry < 0 {
                        self.set_move(c_idx, -1, -1);
                    } else {
                        let root_idx = Zobrist::get_transformed_idx(rx, ry, t_to_root);
                        self.set_move(c_idx, (root_idx % 15) as i8, (root_idx / 15) as i8);
                    }
                    let ghost s0 = stack@;
                    stack.push((c_idx, fuel - 1));
                    proof {
                        lemma_stack_measure_push(s0, base as nat, (c_idx, (fuel - 1) as usize));
                        assert(stack@.subrange(0, rest.len() as int) =~= rest);
                        assert((steps + 1) * power(base as nat, (fuel - 1) as nat) == steps * power(base as nat, (fuel - 1) as nat) + power(base as nat, (fuel - 1) as nat)) by (nonlinear_arith);
                    }
                    proof {
                        if n1[c_idx as int].parent != NO_NODE {
                            lemma_next_bounds(n1, n1[c_idx as int].parent, c_idx + 1, 0);
                        }
                    }
                    child_opt = self.nodes[c_idx].sibling;
                    steps += 1;
                }
                proof {
                    assert(power(base as nat, fuel as nat) == base * power(base as nat, (fuel - 1) as nat));
                    assert(steps * power(base as nat, (fuel - 1) as nat) < base * power(base as nat, (fuel - 1) as nat)) by (nonlinear_arith)
                        requires
                            steps < base,
                            power(base as nat, (fuel - 1) as nat) >= 1,
                    ;
                }
            } else {
                proof {
                    lemma_power_pos(base as nat, fuel as nat);
                }
            }
        }
        proof {
            lemma_order_same(n1, self.nodes@);
            assert forall|i: int| 1 <= i < self.nodes@.len() && (#[trigger] self.nodes@[i]).parent != NO_NODE implies {
                &&& self.nodes@[i].parent < self.nodes@.len()
                &&& self.nodes@[i].parent != i
                &&& one_up(self.nodes@, self.nodes@[i].parent as int, i)
            } by {
                assert(n1[i].parent == self.nodes@[i].parent);
                assert(one_up(n1, n1[i].parent as int, i));
                assert(n1[n1[i].parent as int].move_info == n0[n1[i].parent as int].move_info);
                assert(n1[i].move_info == n0[i].move_info);
            }
            assert(zobrist_cells(t_table@));
            assert forall|i: int| 1 <= i < self.nodes@.len() implies #[trigger] self.nodes@[i].parent == searched_parent(n0,
                old(self).hash_table@, hash_nexts@, t_table@, node_stones_data@, node_stones_index@, i) by {
                assert(n1[i].parent == self.nodes@[i].parent);
            }
        }
        absolute_t
    }

    /// Sets the move of node `i` (depth and links unchanged).
    fn set_move(&mut self, i: usize, x: i8, y: i8)
        requires
            i < old(self).nodes@.len(),
        ensures
            final(self).nodes@.len() == old(self).nodes@.len(),
            forall|j: int| 0 <= j < final(self).nodes@.len() && j != i ==> #[trigger] final(self).nodes@[j] == old(self).nodes@[j],
            final(self).nodes@[i as int].hash == old(self).nodes@[i as int].hash,
            final(self).nodes@[i as int].parent == old(self).nodes@[i as int].parent,
            final(self).nodes@[i as int].child == old(self).nodes@[i as int].child,
            final(self).nodes@[i as int].sibling == old(self).nodes@[i as int].sibling,
            final(self).nodes@[i as int].spec_x() == x,
            final(self).nodes@[i as int].spec_y() == y,
            final(self).nodes@[i as int].spec_depth() == old(self).nodes@[i as int].spec_depth(),
            final(self).node_texts == old(self).node_texts,
            final(self).text_pool == old(self).text_pool,
            final(self).max_nodes == old(self).max_nodes,
            final(self).encoding == old(self).encoding,
            final(self).hash_table == old(self).hash_table,
    {
        let mut n = self.nodes[i];
        n.set_x(x);
        n.set_y(y);
        self.nodes.set(i, n);
    }
}


/// `std::io::Error::new(ErrorKind::UnexpectedEof, "EOF")`: the error of a
/// read past the end. Nothing is stated of the error value.
#[verifier::external_body]
fn eof_error() -> std::io::Error {
    std::io::Error::new(std::io::ErrorKind::UnexpectedEof, "EOF")
}

/// The bytes an LZ4 frame decodes to (what `lz4_flex::frame::FrameDecoder`
/// reads from `data` before its end or a first error).
pub uninterp spec fn lz4_frame_decoded(data: Seq<u8>) -> Seq<u8>;

/// `lz4_flex::frame::FrameDecoder` read to the end: the bytes decoded from
/// `data` (those read before an error, if one comes).
#[verifier::external_body]
fn lz4_frame_decode(data: &[u8]) -> (out: Vec<u8>)
    ensures
        out@ == lz4_frame_decoded(data@),
{
    let mut decoder = lz4_flex::frame::FrameDecoder::new(data);
    let mut out = Vec::new();
    let _ = std::io::Read::read_to_end(&mut decoder, &mut out);
    out
}

/// The least value at which `floor(100 / (1 + exp(-v / 250)))` reaches
/// `p`, for `p` in 1..=100 (the win percentage shown for an evaluation).
pub open spec fn percent_threshold(p: int) -> int {
    if p <= 0 {
        -32768
    } else if p >= 100 {
        9185
    } else {
        PERCENT_THRESHOLDS[p - 1] as int
    }
}

/// `percent_threshold(1..=99)`.
pub const PERCENT_THRESHOLDS: [i16; 99] = [
    -1148, -972, -869, -794, -736, -687, -646, -610, -578, -549, -522, -498, -475, -453, -433, -414, -396, -379, -362,
    -346, -331, -316, -302, -288, -274, -261, -248, -236, -223, -211, -200, -188, -177, -165, -154, -143, -133, -122, -111,
    -101, -90, -80, -70, -60, -50, -40, -30, -20, -10, 0, 11, 21, 31, 41, 51, 61, 71, 81, 91, 102, 112, 123, 134, 144, 155,
    166, 178, 189, 201, 212, 224, 237, 249, 262, 275, 289, 303, 317, 332, 347, 363, 380, 397, 415, 434, 454, 476, 499,
    523, 550, 579, 611, 647, 688, 737, 795, 870, 973, 1149,
];

/// The win percentage of an evaluation: the greatest `p` in 0..=100 whose
/// threshold `v` reaches.
pub open spec fn win_percent(v: int) -> int {
    choose|p: int| #[trigger] percent_fits(v, p)
}

/// Whether `p` is the win percentage of `v`: the threshold of `p` is
/// reached and that of `p + 1` is not.
pub open spec fn percent_fits(v: int, p: int) -> bool {
    0 <= p <= 100 && percent_threshold(p) <= v && (p == 100 || v < percent_threshold(p + 1))
}

/// Whether the thresholds increase.
proof fn lemma_thresholds_increase()
    ensures
        forall|p: int| 0 <= p < 100 ==> #[trigger] percent_threshold(p) < percent_threshold(p + 1),
{
    assert forall|p: int| 0 <= p < 100 implies #[trigger] percent_threshold(p) < percent_threshold(p + 1) by {
        if 1 <= p && p < 99 {
            assert(PERCENT_THRESHOLDS[p - 1] < PERCENT_THRESHOLDS[p]);
        }
    }
}

/// The win percentage of `v` (see `win_percent`).
fn percent_of(v: i16) -> (p: i32)
    ensures
        0 <= p <= 100,
        percent_threshold(p as int) <= v,
        p == 100 || (v as int) < percent_threshold(p + 1),
        p == win_percent(v as int),
{
    let mut p: usize = 0;
    while p < 99 && PERCENT_THRESHOLDS[p] <= v
        invariant
            p <= 99,
            percent_threshold(p as int) <= v,
        decreases 99 - p,
    {
        p += 1;
    }
    let r: i32 = if p == 99 && 9185 <= v { 100 } else { p as i32 };
    proof {
        lemma_thresholds_increase();
        assert(percent_threshold(r as int) <= v);
        assert(r == 100 || (v as int) < percent_threshold(r + 1));
        let q = win_percent(v as int);
        assert(percent_fits(v as int, r as int));
        lemma_percent_unique(v as int, q, r as int);
    }
    r
}

proof fn lemma_percent_unique(v: int, a: int, b: int)
    requires
        0 <= a <= 100 && percent_threshold(a) <= v && (a == 100 || v < percent_threshold(a + 1)),
        0 <= b <= 100 && percent_threshold(b) <= v && (b == 100 || v < percent_threshold(b + 1)),
    ensures
        a == b,
{
    lemma_thresholds_increase();
    if a < b {
        lemma_threshold_mono(a + 1, b);
    } else if b < a {
        lemma_threshold_mono(b + 1, a);
    }
}

proof fn lemma_threshold_mono(i: int, j: int)
    requires
        0 <= i <= j <= 100,
    ensures
        percent_threshold(i) <= percent_threshold(j),
    decreases j - i,
{
    lemma_thresholds_increase();
    if i < j {
        lemma_threshold_mono(i, j - 1);
    }
}

/// A cursor over bytes, reading little-endian numbers.
struct ByteReader<'a> {
    data: &'a [u8],
    pos: usize,
}

impl<'a> ByteReader<'a> {
    /// Reads a little-endian u16, or fails at the end.
    fn read_u16_le(&mut self) -> (r: Option<u16>)
        requires
            old(self).pos <= old(self).data@.len(),
        ensures
            final(self).data == old(self).data,
            final(self).pos <= final(self).data@.len(),
            old(self).pos <= final(self).pos,
            r is Some <==> old(self).pos + 2 <= old(self).data@.len(),
            r is Some ==> final(self).pos == old(self).pos + 2,
            r is Some ==> r->0 as int == le16_at(old(self).data@, old(self).pos as int),
            r is None ==> final(self).pos == old(self).pos,
    {
        if self.data.len() - self.pos < 2 {
            return None;
        }
        let b0 = self.data[self.pos];
        let b1 = self.data[self.pos + 1];
        let v = (b0 as u16) | ((b1 as u16) << 8);
        proof {
            assert((b0 as u16) | ((b1 as u16) << 8) == b0 as u16 + (b1 as u16) * 256) by (bit_vector);
        }
        self.pos = self.pos + 2;
        Some(v)
    }

    /// Reads a little-endian u32, or fails at the end.
    fn read_u32_le(&mut self) -> (r: Option<u32>)
        requires
            old(self).pos <= old(self).data@.len(),
        ensures
            final(self).data == old(self).data,
            final(self).pos <= final(self).data@.len(),
            old(self).pos <= final(self).pos,
            r is Some <==> old(self).pos + 4 <= old(self).data@.len(),
            r is Some ==> final(self).pos == old(self).pos + 4,
            r is Some ==> r->0 as int == le32_at(old(self).data@, old(self).pos as int),
    {
        if self.data.len() - self.pos < 4 {
            return None;
        }
        let p = self.pos;
        let b0 = self.data[p];
        let b1 = self.data[p + 1];
        let b2 = self.data[p + 2];
        let b3 = self.data[p + 3];
        let v = (b0 as u32) | ((b1 as u32) << 8) | ((b2 as u32) << 16) | ((b3 as u32) << 24);
        proof {
            assert((b0 as u32) | ((b1 as u32) << 8) | ((b2 as u32) << 16) | ((b3 as u32) << 24)
                == b0 as u32 + (b1 as u32) * 256 + (b2 as u32) * 65536 + (b3 as u32) * 16777216) by (bit_vector);
        }
        self.pos = p + 4;
        Some(v)
    }

    /// The next `len` bytes, or a failure (nothing read) when fewer are left.
    fn read_slice(&mut self, len: usize) -> (r: Option<&'a [u8]>)
        requires
            old(self).pos <= old(self).data@.len(),
        ensures
            final(self).data == old(self).data,
            final(self).pos <= final(self).data@.len(),
            old(self).pos <= final(self).pos,
            r is Some <==> old(self).pos + len <= old(self).data@.len(),
            match r {
                Some(s) => s@ == old(self).data@.subrange(old(self).pos as int, old(self).pos + len)
                    && final(self).pos == old(self).pos + len,
                None => final(self).pos == old(self).pos,
            },
    {
        if self.data.len() - self.pos < len {
            return None;
        }
        let s = vstd::slice::slice_subrange(self.data, self.pos, self.pos + len);
        self.pos = self.pos + len;
        Some(s)
    }

    /// Skips `n` bytes, or fails at the end (after skipping what there is).
    fn skip(&mut self, n: usize) -> (r: bool)
        requires
            old(self).pos <= old(self).data@.len(),
        ensures
            final(self).data == old(self).data,
            final(self).pos <= final(self).data@.len(),
            old(self).pos <= final(self).pos,
            r <==> old(self).pos + n <= old(self).data@.len(),
            final(self).pos == if r { old(self).pos + n } else { old(self).data@.len() as int },
    {
        if self.data.len() - self.pos < n {
            self.pos = self.data.len();
            false
        } else {
            self.pos = self.pos + n;
            true
        }
    }
}

/// The value of a hexadecimal digit (either case).
pub open spec fn hex_value(c: u8) -> int {
    if 48 <= c <= 57 {
        c - 48
    } else if 65 <= c <= 70 {
        c - 55
    } else if 97 <= c <= 102 {
        c - 87
    } else {
        -1
    }
}

/// The coordinate of a hexadecimal digit, -1 for any other byte.
fn hex_to_coord(c: u8) -> (r: i8)
    ensures
        -1 <= r < 16,
        r == hex_value(c),
{
    if 48 <= c && c <= 57 {
        (c - 48) as i8
    } else if 65 <= c && c <= 70 {
        (c - 65 + 10) as i8
    } else if 97 <= c && c <= 102 {
        (c - 97 + 10) as i8
    } else {
        -1
    }
}

/// The bytes of `s` other than zero and carriage return.
pub open spec fn without_nul_cr(s: Seq<u8>) -> Seq<u8>
    decreases s.len(),
{
    if s.len() == 0 {
        s
    } else {
        let rest = without_nul_cr(s.drop_last());
        if s.last() != 0 && s.last() != 13 {
            rest.push(s.last())
        } else {
            rest
        }
    }
}

/// `bytes[lo..hi]` without its zero and carriage-return bytes.
fn clean_text(bytes: &[u8], lo: usize, hi: usize) -> (out: Vec<u8>)
    requires
        lo <= hi <= bytes@.len(),
    ensures
        out@.len() <= hi - lo,
        out@ == without_nul_cr(bytes@.subrange(lo as int, hi as int)),
{
    let mut out: Vec<u8> = Vec::new();
    let mut i = lo;
    while i < hi
        invariant
            lo <= i <= hi <= bytes@.len(),
            out@.len() <= i - lo,
            out@ == without_nul_cr(bytes@.subrange(lo as int, i as int)),
        decreases hi - i,
    {
        let b = bytes[i];
        proof {
            assert(bytes@.subrange(lo as int, i + 1).drop_last() =~= bytes@.subrange(lo as int, i as int));
        }
        if b != 0 && b != 13 {
            out.push(b);
        }
        i += 1;
    }
    out
}

/// Whether `charset=` starts at position `p` of `b`.
pub open spec fn charset_at(b: Seq<u8>, p: int) -> bool {
    &&& 0 <= p
    &&& p + 8 <= b.len()
    &&& b.subrange(p, p + 8) == seq![99u8, 104u8, 97u8, 114u8, 115u8, 101u8, 116u8, 61u8]
}

/// The position of the first `charset=` in `bytes[lo..]`, relative to
/// `lo`; the length of the rest when there is none.
fn charset_pos(bytes: &[u8], lo: usize) -> (r: usize)
    requires
        lo <= bytes@.len(),
    ensures
        r <= bytes@.len() - lo,
        forall|q: int| lo <= q < lo + r ==> !#[trigger] charset_at(bytes@, q),
        r < bytes@.len() - lo ==> charset_at(bytes@, lo + r),
{
    let total = bytes.len();
    let n = total - lo;
    if n < 8 {
        return n;
    }
    let mut i: usize = 0;
    while n - i >= 8
        invariant
            n == bytes@.len() - lo,
            total == bytes@.len(),
            lo <= bytes@.len(),
            i <= n,
            forall|q: int| lo <= q < lo + i ==> !#[trigger] charset_at(bytes@, q),
        decreases n - i,
    {
        let p = lo + i;
        if bytes[p] == 99 && bytes[p + 1] == 104 && bytes[p + 2] == 97 && bytes[p + 3] == 114 && bytes[p + 4] == 115
            && bytes[p + 5] == 101 && bytes[p + 6] == 116 && bytes[p + 7] == 61 {
            proof {
                assert(bytes@.subrange(p as int, p + 8) =~= seq![99u8, 104u8, 97u8, 114u8, 115u8, 101u8, 116u8, 61u8]);
            }
            return i;
        }
        proof {
            if charset_at(bytes@, p as int) {
                let w = bytes@.subrange(p as int, p + 8);
                assert(w[0] == bytes@[p as int] && w[1] == bytes@[p + 1] && w[2] == bytes@[p + 2] && w[3] == bytes@[p + 3]);
                assert(w[4] == bytes@[p + 4] && w[5] == bytes@[p + 5] && w[6] == bytes@[p + 6] && w[7] == bytes@[p + 7]);
            }
        }
        i += 1;
    }
    proof {
        assert forall|q: int| lo <= q < lo + n implies !#[trigger] charset_at(bytes@, q) by {
            if q >= lo + i {
                assert(q + 8 > bytes@.len());
            }
        }
    }
    n
}

/// The first position of `b` in `bytes[lo..hi]`, or `hi`.
fn find_byte_in(bytes: &[u8], lo: usize, hi: usize, b: u8) -> (r: usize)
    requires
        lo <= hi <= bytes@.len(),
    ensures
        lo <= r <= hi,
        forall|j: int| lo <= j < r ==> bytes@[j] != b,
        r < hi ==> bytes@[r as int] == b,
{
    let mut i = lo;
    while i < hi
        invariant
            lo <= i <= hi <= bytes@.len(),
            forall|j: int| lo <= j < i ==> bytes@[j] != b,
        decreases hi - i,
    {
        if bytes[i] == b {
            return i;
        }
        i += 1;
    }
    hi
}

/// The evaluation a record stores in its bytes 1 and 2 (low byte first),
/// read as a signed 16-bit number.
pub open spec fn record_value(record: Seq<u8>) -> int {
    let u = record[1] as int + record[2] as int * 256;
    if u >= 32768 {
        u - 65536
    } else {
        u
    }
}

/// Whether an evaluation is a mate score: more than 29500 either way (the
/// lowest value, whose size does not fit, is not one).
pub open spec fn is_mate_value(v: int) -> bool {
    v != -32768 && (v > 29500 || v < -29500)
}

/// The pool ids of the texts a database labels positions with.
struct LabelIds {
    percent: Vec<u32>,
    win: u32,
    loss: u32,
    mate_w: Vec<u32>,
    mate_l: Vec<u32>,
}

/// The win and loss ids name the texts "W" and "L" in `enc` (or nothing).
spec fn label_texts_named(ids: &LabelIds, texts: Seq<Seq<u8>>, enc: TextEncoding) -> bool {
    &&& (ids.win == NO_TEXT || texts[ids.win as int] == encoded(enc, "W"@))
    &&& (ids.loss == NO_TEXT || texts[ids.loss as int] == encoded(enc, "L"@))
}

/// The ids of `LabelIds` are in the pool.
spec fn label_ids_ok(ids: &LabelIds, n: nat) -> bool {
    &&& ids.percent@.len() == 100
    &&& ids.mate_w@.len() == 226
    &&& ids.mate_l@.len() == 226
    &&& (ids.win == NO_TEXT || ids.win < n)
    &&& (ids.loss == NO_TEXT || ids.loss < n)
    &&& forall|i: int| 0 <= i < 100 ==> #[trigger] ids.percent@[i] == NO_TEXT || ids.percent@[i] < n
    &&& forall|i: int| 0 <= i < 226 ==> #[trigger] ids.mate_w@[i] == NO_TEXT || ids.mate_w@[i] < n
    &&& forall|i: int| 0 <= i < 226 ==> #[trigger] ids.mate_l@[i] == NO_TEXT || ids.mate_l@[i] < n
}

impl RenLibParser {
    /// Files `text` in the pool; `NO_TEXT` when the pool has no room left
    /// for it (ids and offsets are 32-bit).
    fn intern(&mut self, text: &[u8]) -> (id: u32)
        requires
            old(self).text_pool.wf(),
        ensures
            final(self).text_pool.wf(),
            final(self).nodes == old(self).nodes,
            final(self).node_texts == old(self).node_texts,
            final(self).hash_table == old(self).hash_table,
            final(self).max_nodes == old(self).max_nodes,
            final(self).encoding == old(self).encoding,
            final(self).text_pool.texts().len() >= old(self).text_pool.texts().len(),
            forall|i: int| 0 <= i < old(self).text_pool.texts().len() ==> #[trigger] final(self).text_pool.texts()[i] == old(self).text_pool.texts()[i],
            id == NO_TEXT || id < final(self).text_pool.texts().len(),
            id != NO_TEXT ==> final(self).text_pool.texts()[id as int] == text@,
    {
        if text.len() <= 0xFFFF_FFFFusize - self.text_pool.buffer.len() && self.text_pool.spans.len() < 0xFFFF_FFFDusize {
            self.text_pool.get_or_insert(text)
        } else {
            NO_TEXT
        }
    }

    /// Files `s` in the parser's encoding.
    fn intern_str(&mut self, s: &str) -> (id: u32)
        requires
            old(self).text_pool.wf(),
        ensures
            final(self).text_pool.wf(),
            final(self).nodes == old(self).nodes,
            final(self).node_texts == old(self).node_texts,
            final(self).hash_table == old(self).hash_table,
            final(self).max_nodes == old(self).max_nodes,
            final(self).encoding == old(self).encoding,
            final(self).text_pool.texts().len() >= old(self).text_pool.texts().len(),
            forall|i: int| 0 <= i < old(self).text_pool.texts().len() ==> #[trigger] final(self).text_pool.texts()[i] == old(self).text_pool.texts()[i],
            id == NO_TEXT || id < final(self).text_pool.texts().len(),
            id != NO_TEXT ==> final(self).text_pool.texts()[id as int] == encoded(final(self).encoding, s@),
    {
        let bytes = encode_text(self.encoding, s);
        self.intern(bytes.as_slice())
    }

    /// Files "<prefix><n>" (or "<n>%" with `percent`).
    fn intern_number(&mut self, prefix: char, n: usize, percent: bool) -> (id: u32)
        requires
            old(self).text_pool.wf(),
        ensures
            final(self).text_pool.wf(),
            final(self).nodes == old(self).nodes,
            final(self).node_texts == old(self).node_texts,
            final(self).hash_table == old(self).hash_table,
            final(self).max_nodes == old(self).max_nodes,
            final(self).encoding == old(self).encoding,
            final(self).text_pool.texts().len() >= old(self).text_pool.texts().len(),
            forall|i: int| 0 <= i < old(self).text_pool.texts().len() ==> #[trigger] final(self).text_pool.texts()[i] == old(self).text_pool.texts()[i],
            id == NO_TEXT || id < final(self).text_pool.texts().len(),
    {
        let mut s = String::new();
        if percent {
            push_dec(&mut s, n);
            push_char(&mut s, '%');
        } else {
            push_char(&mut s, prefix);
            push_dec(&mut s, n);
        }
        self.intern_str(s.as_str())
    }

    /// Files the label texts: 1% .. 99%, "W", "L", then W1, L1, .. W225, L225.
    fn label_ids(&mut self) -> (ids: LabelIds)
        requires
            old(self).text_pool.wf(),
        ensures
            final(self).text_pool.wf(),
            final(self).nodes == old(self).nodes,
            final(self).node_texts == old(self).node_texts,
            final(self).hash_table == old(self).hash_table,
            final(self).max_nodes == old(self).max_nodes,
            final(self).encoding == old(self).encoding,
            final(self).text_pool.texts().len() >= old(self).text_pool.texts().len(),
            forall|i: int| 0 <= i < old(self).text_pool.texts().len() ==> #[trigger] final(self).text_pool.texts()[i] == old(self).text_pool.texts()[i],
            label_ids_ok(&ids, final(self).text_pool.texts().len()),
            label_texts_named(&ids, final(self).text_pool.texts(), final(self).encoding),
    {
        let mut percent: Vec<u32> = Vec::new();
        percent.push(NO_TEXT);
        let mut i: usize = 1;
        while i < 100
            invariant
                1 <= i <= 100,
                percent@.len() == i,
                self.text_pool.wf(),
                self.nodes == old(self).nodes,
                self.node_texts == old(self).node_texts,
                self.hash_table == old(self).hash_table,
                self.max_nodes == old(self).max_nodes,
                self.encoding == old(self).encoding,
                self.text_pool.texts().len() >= old(self).text_pool.texts().len(),
                forall|k: int| 0 <= k < old(self).text_pool.texts().len() ==> #[trigger] self.text_pool.texts()[k] == old(self).text_pool.texts()[k],
                forall|k: int| 0 <= k < i ==> #[trigger] percent@[k] == NO_TEXT || percent@[k] < self.text_pool.texts().len(),
            decreases 100 - i,
        {
            let id = self.intern_number('%', i, true);
            percent.push(id);
            i += 1;
        }
        let win = self.intern_str("W");
        let loss = self.intern_str("L");
        let mut mate_w: Vec<u32> = Vec::new();
        let mut mate_l: Vec<u32> = Vec::new();
        mate_w.push(NO_TEXT);
        mate_l.push(NO_TEXT);
        let mut k: usize = 1;
        while k <= 225
            invariant
                1 <= k <= 226,
                mate_w@.len() == k,
                mate_l@.len() == k,
                percent@.len() == 100,
                self.text_pool.wf(),
                self.nodes == old(self).nodes,
                self.node_texts == old(self).node_texts,
                self.hash_table == old(self).hash_table,
                self.max_nodes == old(self).max_nodes,
                self.encoding == old(self).encoding,
                self.text_pool.texts().len() >= old(self).text_pool.texts().len(),
                forall|q: int| 0 <= q < old(self).text_pool.texts().len() ==> #[trigger] self.text_pool.texts()[q] == old(self).text_pool.texts()[q],
                forall|q: int| 0 <= q < 100 ==> #[trigger] percent@[q] == NO_TEXT || percent@[q] < self.text_pool.texts().len(),
                win == NO_TEXT || win < self.text_pool.texts().len(),
                loss == NO_TEXT || loss < self.text_pool.texts().len(),
                win == NO_TEXT || self.text_pool.texts()[win as int] == encoded(self.encoding, "W"@),
                loss == NO_TEXT || self.text_pool.texts()[loss as int] == encoded(self.encoding, "L"@),
                forall|q: int| 0 <= q < k ==> #[trigger] mate_w@[q] == NO_TEXT || mate_w@[q] < self.text_pool.texts().len(),
                forall|q: int| 0 <= q < k ==> #[trigger] mate_l@[q] == NO_TEXT || mate_l@[q] < self.text_pool.texts().len(),
            decreases 226 - k,
        {
            let w = self.intern_number('W', k, false);
            mate_w.push(w);
            let l = self.intern_number('L', k, false);
            mate_l.push(l);
            k += 1;
        }
        LabelIds { percent, win, loss, mate_w, mate_l }
    }
}

/// Whether a pair of packed ids names only texts of the pool.
pub open spec fn pair_ok(t: u32, n: nat) -> bool {
    &&& (t & 0xFFFF == 0xFFFF || (t & 0xFFFF) < n)
    &&& ((t >> 16u32) & 0xFFFF == 0xFFFF || ((t >> 16u32) & 0xFFFF) < n)
}

proof fn lemma_pair_merge(existing: u32, cid: u32, tid: u32, n: nat)
    requires
        pair_ok(existing, n),
        cid <= 0xFFFF,
        tid <= 0xFFFF,
        cid == 0xFFFF || cid < n,
        tid == 0xFFFF || tid < n,
    ensures
        ({
            let ex_c = if cid != 0xFFFF { cid } else { existing & 0xFFFF };
            let ex_t = if tid != 0xFFFF { tid } else { (existing >> 16u32) & 0xFFFF };
            pair_ok(ex_c | (ex_t << 16u32), n)
        }),
{
    let ex_c = if cid != 0xFFFF { cid } else { existing & 0xFFFF };
    let ex_t = if tid != 0xFFFF { tid } else { (existing >> 16u32) & 0xFFFF };
    assert(existing & 0xFFFF <= 0xFFFF && (existing >> 16u32) & 0xFFFF <= 0xFFFF) by (bit_vector);
    assert((ex_c | (ex_t << 16u32)) & 0xFFFF == ex_c && ((ex_c | (ex_t << 16u32)) >> 16u32) & 0xFFFF == ex_t) by (bit_vector)
        requires
            ex_c <= 0xFFFF,
            ex_t <= 0xFFFF,
    ;
}

proof fn lemma_pair_text(existing: u32, tid: u32, n: nat)
    requires
        pair_ok(existing, n),
        tid <= 0xFFFF,
        tid == 0xFFFF || tid < n,
    ensures
        pair_ok((existing & 0x0000FFFF) | (tid << 16u32), n),
{
    assert(((existing & 0x0000FFFF) | (tid << 16u32)) & 0xFFFF == existing & 0xFFFF && (((existing & 0x0000FFFF) | (tid
        << 16u32)) >> 16u32) & 0xFFFF == tid) by (bit_vector)
        requires
            tid <= 0xFFFF,
    ;
}

impl RenLibParser {
    /// The label text and comment of a record's data, filing the board
    /// texts it gives for the children of node `p_idx` in `all_btxt`.
    fn record_texts(&mut self, record: &[u8], ids: &LabelIds, p_idx: usize, all_btxt: &mut Vec<(usize, i8, i8, u32)>) -> (r: (u32, u32))
        requires
            old(self).text_pool.wf(),
            label_ids_ok(ids, old(self).text_pool.texts().len()),
            label_texts_named(ids, old(self).text_pool.texts(), old(self).encoding),
            forall|j: int| 0 <= j < old(all_btxt)@.len() ==> (#[trigger] old(all_btxt)@[j]).3 == NO_TEXT || old(all_btxt)@[j].3 < old(self).text_pool.texts().len(),
            forall|j: int| 0 <= j < old(all_btxt)@.len() ==> (#[trigger] old(all_btxt)@[j]).0 <= p_idx,
        ensures
            label_texts_named(ids, final(self).text_pool.texts(), final(self).encoding),
            record@.len() >= 5 && !is_mate_value(record_value(record@)) && record@[0] == 87 ==> r.0 == NO_TEXT
                || final(self).text_pool.texts()[r.0 as int] == encoded(final(self).encoding, "W"@),
            record@.len() >= 5 && !is_mate_value(record_value(record@)) && record@[0] == 76 ==> r.0 == NO_TEXT
                || final(self).text_pool.texts()[r.0 as int] == encoded(final(self).encoding, "L"@),
            final(self).text_pool.wf(),
            final(self).nodes == old(self).nodes,
            final(self).node_texts == old(self).node_texts,
            final(self).hash_table == old(self).hash_table,
            final(self).max_nodes == old(self).max_nodes,
            final(self).encoding == old(self).encoding,
            final(self).text_pool.texts().len() >= old(self).text_pool.texts().len(),
            forall|i: int| 0 <= i < old(self).text_pool.texts().len() ==> #[trigger] final(self).text_pool.texts()[i] == old(self).text_pool.texts()[i],
            r.0 == NO_TEXT || r.0 < final(self).text_pool.texts().len(),
            r.1 == NO_TEXT || r.1 < final(self).text_pool.texts().len(),
            final(all_btxt)@.len() >= old(all_btxt)@.len(),
            forall|j: int| 0 <= j < old(all_btxt)@.len() ==> #[trigger] final(all_btxt)@[j] == old(all_btxt)@[j],
            forall|j: int| 0 <= j < final(all_btxt)@.len() ==> (#[trigger] final(all_btxt)@[j]).3 == NO_TEXT || final(all_btxt)@[j].3 < final(self).text_pool.texts().len(),
            forall|j: int| 0 <= j < final(all_btxt)@.len() ==> (#[trigger] final(all_btxt)@[j]).0 <= p_idx,
            forall|j: int| old(all_btxt)@.len() <= j < final(all_btxt)@.len() ==> (#[trigger] final(all_btxt)@[j]).0 == p_idx
                && 0 <= final(all_btxt)@[j].1 < 16 && 0 <= final(all_btxt)@[j].2 < 16,
            record@.len() < 5 ==> r.0 == NO_TEXT && r.1 == NO_TEXT,
            record@.len() >= 5 && !is_mate_value(record_value(record@)) && record@[0] == 87 ==> r.0 == ids.win,
            record@.len() >= 5 && !is_mate_value(record_value(record@)) && record@[0] == 76 ==> r.0 == ids.loss,
            record@.len() >= 5 && !is_mate_value(record_value(record@)) && record@[0] != 87 && record@[0] != 76 && record_value(
                record@,
            ) == 0 ==> r.0 == NO_TEXT,
            record@.len() >= 5 && !is_mate_value(record_value(record@)) && record@[0] != 87 && record@[0] != 76 && record_value(
                record@,
            ) != 0 ==> r.0 == (if win_percent(record_value(record@)) >= 100 {
                ids.win
            } else if win_percent(record_value(record@)) <= 0 {
                ids.loss
            } else {
                ids.percent@[win_percent(record_value(record@))]
            }),
            record@.len() >= 5 && is_mate_value(record_value(record@)) && record_value(record@) < 0 && 0 <= 30001 + record_value(record@) <= 225
                ==> r.0 == ids.mate_w@[30001 + record_value(record@)],
            record@.len() >= 5 && is_mate_value(record_value(record@)) && record_value(record@) > 0 && 0 <= 30001 - record_value(record@) <= 225
                ==> r.0 == ids.mate_l@[30001 - record_value(record@)],
    {
        let mut text_id: u32 = NO_TEXT;
        let mut comment_id: u32 = NO_TEXT;
        if record.len() < 5 {
            return (text_id, comment_id);
        }
        let label = record[0];
        let r1 = record[1];
        let r2 = record[2];
        let value: i16 = ((r1 as u16) | ((r2 as u16) << 8)) as i16;
        proof {
            assert(value as int == (if r1 as int + r2 as int * 256 >= 32768 {
                r1 as int + r2 as int * 256 - 65536
            } else {
                r1 as int + r2 as int * 256
            })) by (bit_vector)
                requires
                    value == ((r1 as u16) | ((r2 as u16) << 8)) as i16,
            ;
            assert(value as int == record_value(record@));
        }
        let abs_val: i32 = if value < 0 { if value == -32768 { -32768 } else { -(value as i32) } } else { value as i32 };
        if abs_val > 29500 {
            let steps: usize = (30000 - abs_val + 1) as usize;
            if steps <= 225 {
                text_id = if value < 0 { ids.mate_w[steps] } else { ids.mate_l[steps] };
            } else {
                text_id = if value < 0 { self.intern_number('W', steps, false) } else { self.intern_number('L', steps, false) };
            }
        } else if label == 87 {
            text_id = ids.win;
        } else if label == 76 {
            text_id = ids.loss;
        } else if value != 0 {
            let win_percent = percent_of(value);
            if win_percent >= 100 {
                text_id = ids.win;
            } else if win_percent <= 0 {
                text_id = ids.loss;
            } else {
                text_id = ids.percent[win_percent as usize];
            }
        }
        let tlen = record.len() - 5;
        let starts_btxt = tlen >= 6 && record[5] == 64 && record[6] == 66 && record[7] == 84 && record[8] == 88 && record[9]
            == 84 && record[10] == 64;
        if starts_btxt {
            let btxt_end = find_byte_in(record, 11, record.len(), 8);
            let mut idx: usize = 11;
            if idx < btxt_end && record[idx] == 10 {
                idx += 1;
            }
            while idx < btxt_end
                invariant
                    11 <= btxt_end <= record@.len(),
                    11 <= idx <= btxt_end + 2,
                    self.text_pool.wf(),
                    self.nodes == old(self).nodes,
                    self.node_texts == old(self).node_texts,
                    self.hash_table == old(self).hash_table,
                    self.max_nodes == old(self).max_nodes,
                    self.encoding == old(self).encoding,
                    self.text_pool.texts().len() >= old(self).text_pool.texts().len(),
                    forall|i: int| 0 <= i < old(self).text_pool.texts().len() ==> #[trigger] self.text_pool.texts()[i] == old(self).text_pool.texts()[i],
                    text_id == NO_TEXT || text_id < self.text_pool.texts().len(),
                    all_btxt@.len() >= old(all_btxt)@.len(),
                    forall|j: int| 0 <= j < old(all_btxt)@.len() ==> #[trigger] all_btxt@[j] == old(all_btxt)@[j],
                    forall|j: int| 0 <= j < all_btxt@.len() ==> (#[trigger] all_btxt@[j]).3 == NO_TEXT || all_btxt@[j].3 < self.text_pool.texts().len(),
                    forall|j: int| 0 <= j < all_btxt@.len() ==> (#[trigger] all_btxt@[j]).0 <= p_idx,
                    forall|j: int| old(all_btxt)@.len() <= j < all_btxt@.len() ==> (#[trigger] all_btxt@[j]).0 == p_idx
                        && 0 <= all_btxt@[j].1 < 16 && 0 <= all_btxt@[j].2 < 16,
                decreases btxt_end + 2 - idx,
            {
                if btxt_end - idx < 2 {
                    break;
                }
                let lx = hex_to_coord(record[idx]);
                let ly = hex_to_coord(record[idx + 1]);
                if lx < 0 || ly < 0 {
                    idx += 2;
                    continue;
                }
                idx += 2;
                let text_start = idx;
                while idx < btxt_end && record[idx] != 10
                    invariant
                        text_start <= idx <= btxt_end <= record@.len(),
                    decreases btxt_end - idx,
                {
                    idx += 1;
                }
                let text_buffer = clean_text(record, text_start, idx);
                if idx < btxt_end && record[idx] == 10 {
                    idx += 1;
                }
                let t_id = self.intern(text_buffer.as_slice());
                all_btxt.push((p_idx, lx, ly, t_id));
            }
            if record.len() - btxt_end > 1 {
                let start = btxt_end + 1;
                let len = charset_pos(record, start);
                let text_buffer = clean_text(record, start, start + len);
                if text_buffer.len() > 0 {
                    comment_id = self.intern(text_buffer.as_slice());
                }
            }
        } else {
            let mut start: usize = 5;
            let pos = find_byte_in(record, 5, record.len(), 8);
            if pos < record.len() {
                start = pos + 1;
            }
            let len = charset_pos(record, start);
            let text_buffer = clean_text(record, start, start + len);
            if text_buffer.len() > 0 {
                comment_id = self.intern(text_buffer.as_slice());
            }
        }
        (text_id, comment_id)
    }
}


/// What the record loop of `parse_db_inner` keeps besides the parser.
struct DbState {
    hash_nexts: Vec<u32>,
    stones_data: Vec<u8>,
    stones_index: Vec<u32>,
    all_btxt: Vec<(usize, i8, i8, u32)>,
}

impl RenLibParser {
    /// Reads the stones of a record's key onto a new board: the first half
    /// (rounded up) black, the rest white; -1 coordinates are skipped, and
    /// only cells of the board are kept in `stones`.
    fn key_board(key: &[u8], num_stones: usize, stones: &mut Vec<u8>) -> (b: Board)
        requires
            key@.len() >= 2 * num_stones + 3 || num_stones == 0,
            num_stones <= 0x8000,
            old(stones)@.len() == 0,
        ensures
            forall|i: int| 0 <= i < final(stones)@.len() ==> #[trigger] final(stones)@[i] < 225,
            final(stones)@.len() <= num_stones,
            final(stones)@ == key_cells(key@, (num_stones as int + 1) / 2, num_stones as int),
            b.hashes_of(key_placed(key@, (num_stones as int + 1) / 2, num_stones as int)),
    {
        let mut board = Board::new();
        let num_black = (num_stones + 1) / 2;
        let num_white = num_stones / 2;
        let mut k: usize = 0;
        while k < num_black
            invariant
                key@.len() >= 2 * num_stones + 3 || num_stones == 0,
                num_stones <= 0x8000,
                num_black == (num_stones + 1) / 2,
                k <= num_black,
                board.move_count <= k,
                stones@.len() <= k,
                forall|i: int| 0 <= i < stones@.len() ==> #[trigger] stones@[i] < 225,
                stones@ == key_cells(key@, num_black as int, k as int),
                board.hashes_of(key_placed(key@, num_black as int, k as int)),
            decreases num_black - k,
        {
            let bx = key[3 + k * 2] as i8;
            let by = key[4 + k * 2] as i8;
            let ghost b0 = board;
            proof {
                assert(key_pair(key@, k as int, num_black as int) == (bx, by, 0int));
            }
            if bx != -1 && by != -1 {
                board.make_move_with_color(bx, by, 0);
                proof {
                    if on_board(bx as int, by as int) {
                        lemma_placed_hashes(b0, board, key_placed(key@, num_black as int, k as int), bx as int, by as int, 0);
                    }
                }
                if 0 <= bx && 0 <= by && (by as usize) * 15 + (bx as usize) < 225 {
                    stones.push(((by as usize) * 15 + (bx as usize)) as u8);
                }
            }
            k += 1;
        }
        let mut k: usize = 0;
        while k < num_white
            invariant
                key@.len() >= 2 * num_stones + 3 || num_stones == 0,
                num_stones <= 0x8000,
                num_black == (num_stones + 1) / 2,
                num_white == num_stones / 2,
                k <= num_white,
                board.move_count <= num_black + k,
                stones@.len() <= num_black + k,
                forall|i: int| 0 <= i < stones@.len() ==> #[trigger] stones@[i] < 225,
                stones@ == key_cells(key@, num_black as int, num_black + k),
                board.hashes_of(key_placed(key@, num_black as int, num_black + k)),
            decreases num_white - k,
        {
            let wx = key[3 + num_black * 2 + k * 2] as i8;
            let wy = key[4 + num_black * 2 + k * 2] as i8;
            let ghost b0 = board;
            proof {
                assert(key_pair(key@, num_black + k, num_black as int) == (wx, wy, 1int));
            }
            if wx != -1 && wy != -1 {
                board.make_move_with_color(wx, wy, 1);
                proof {
                    if on_board(wx as int, wy as int) {
                        lemma_placed_hashes(b0, board, key_placed(key@, num_black as int, num_black + k), wx as int, wy as int, 1);
                    }
                }
                if 0 <= wx && 0 <= wy && (wy as usize) * 15 + (wx as usize) < 225 {
                    stones.push(((wy as usize) * 15 + (wx as usize)) as u8);
                }
            }
            k += 1;
        }
        board
    }
}

/// Stone `k` of a database key: its two bytes (as signed coordinates) at
/// 3 + 2k, black (colour 0) for the first `nb`, white (colour 1) after.
pub open spec fn key_pair(key: Seq<u8>, k: int, nb: int) -> (i8, i8, int) {
    (key[3 + 2 * k] as i8, key[4 + 2 * k] as i8, if k < nb { 0int } else { 1int })
}

/// The stones of the first `k` of a key's stones that lie on the board.
pub open spec fn key_placed(key: Seq<u8>, nb: int, k: int) -> Seq<Stone>
    decreases k,
{
    if k <= 0 {
        Seq::empty()
    } else {
        let p = key_placed(key, nb, k - 1);
        let (x, y, c) = key_pair(key, k - 1, nb);
        if on_board(x as int, y as int) {
            p.push((x as int, y as int, c))
        } else {
            p
        }
    }
}

/// The cells of the first `k` of a key's stones: those with both
/// coordinates set (not -1), not negative, and an index under 225.
pub open spec fn key_cells(key: Seq<u8>, nb: int, k: int) -> Seq<u8>
    decreases k,
{
    if k <= 0 {
        Seq::empty()
    } else {
        let p = key_cells(key, nb, k - 1);
        let (x, y, c) = key_pair(key, k - 1, nb);
        if x != -1 && y != -1 && 0 <= x && 0 <= y && y * 15 + x < 225 {
            p.push((y * 15 + x) as u8)
        } else {
            p
        }
    }
}

impl RenLibParser {
    /// Reads a database (a record count, then records of key bytes —
    /// stones — and data bytes — label, evaluation and texts): one node per
    /// position with stones or texts, the root taking the texts of the empty
    /// board; then links the nodes into a tree (`reconstruct_tree_optimized`)
    /// and gives the board texts of each record to the matching children.
    /// Fails only when the record count cannot be read.
    fn parse_db_inner(&mut self, data: &[u8]) -> (r: Result<(), std::io::Error>)
        requires
            old(self).wf(),
            old(self).hash_table@.dom() == Set::<u64>::empty(),
            data@.len() + 1 < NO_NODE,
        ensures
            r is Err <==> data@.len() < 4,
            r is Err ==> *final(self) == *old(self),
            r is Ok ==> final(self).wf(),
            r is Ok ==> final(self).nodes@.len() >= 1 && table_in_range(final(self).hash_table@, final(self).nodes@.len()),
            r is Ok ==> children_in_order(final(self).nodes@) && parents_one_up(final(self).nodes@),
            r is Ok ==> db_root_ok(final(self).nodes@, final(self).hash_table@),
            r is Ok ==> db_nodes_agree(final(self).nodes@, db_nodes(data@, old(self).max_nodes as int)),
            r is Ok ==> table_newest(final(self).hash_table@, final(self).nodes@),
            r is Ok ==> final(self).nodes@.len() <= (if old(self).max_nodes > 1 { old(self).max_nodes as int } else { 1 })
                && final(self).nodes@.len() <= le32_at(data@, 0) + 1,
            final(self).max_nodes == old(self).max_nodes,
            final(self).encoding == old(self).encoding,
    {
        let mut ctx = ByteReader { data, pos: 0 };
        let num_records = match ctx.read_u32_le() {
            Some(v) => v,
            None => {
                return Err(eof_error());
            },
        };
        let limit: usize = if (num_records as usize) < self.max_nodes { num_records as usize } else { self.max_nodes };
        self.nodes.clear();
        let slots = if limit < usize::MAX { limit + 1 } else { limit };
        self.node_texts.resize(slots, 0xFFFF_FFFF);
        self.nodes.push(RenLibNode::new(-1, -1, NO_NODE, NO_NODE, NO_NODE, 0, 0));
        id_map_insert(&mut self.hash_table, 0, 0);
        let mut st = DbState {
            hash_nexts: Vec::new(),
            stones_data: Vec::new(),
            stones_index: Vec::new(),
            all_btxt: Vec::new(),
        };
        st.hash_nexts.push(NO_NODE);
        st.stones_index.push(0);
        st.stones_index.push(0);
        proof {
            assert(0xFFFF_FFFFu32 & 0xFFFFu32 == 0xFFFFu32 && (0xFFFF_FFFFu32 >> 16u32) & 0xFFFFu32 == 0xFFFFu32) by (bit_vector);
            assert(text_ids_ok(self.node_texts@, self.text_pool.texts().len())) by {
                assert forall|i: int| 0 <= i < self.node_texts@.len() implies {
                    &&& ((#[trigger] self.node_texts@[i]) & 0xFFFF == 0xFFFF || (self.node_texts@[i] & 0xFFFF) < self.text_pool.texts().len())
                    &&& ((self.node_texts@[i] >> 16u32) & 0xFFFF == 0xFFFF || ((self.node_texts@[i] >> 16u32) & 0xFFFF) < self.text_pool.texts().len())
                } by {
                    if i < old(self).node_texts@.len() {
                        assert(self.node_texts@[i] == old(self).node_texts@[i]);
                    }
                }
            }
            assert(links_ok(self.nodes@));
        }
        let ids = self.label_ids();
        proof {
            assert(text_ids_ok(self.node_texts@, self.text_pool.texts().len()));
        }
        let mut rec: u32 = 0;
        let ghost mut acc: Seq<(u64, u8)> = Seq::empty();
        let ghost target = db_nodes(data@, old(self).max_nodes as int);
        proof {
            assert(ctx.pos == 4);
            assert(num_records as int == le32_at(data@, 0));
        }
        while rec < num_records
            invariant_except_break
                db_walk(data@, ctx.pos as int, rec as int, num_records as int, self.max_nodes as int, acc) == target,
            invariant
                target == db_nodes(data@, old(self).max_nodes as int),
                num_records as int == le32_at(data@, 0),
                data@.len() >= 4,
                db_nodes_agree(self.nodes@, acc),
                self.text_pool.wf(),
                self.nodes@.len() >= 1,
                self.node_texts@.len() >= self.nodes@.len(),
                self.node_texts@.len() >= slots,
                slots as int == (if limit < usize::MAX { limit + 1 } else { limit as int }),
                links_ok(self.nodes@),
                forall|i: int| 0 <= i < self.nodes@.len() ==> (#[trigger] self.nodes@[i]).child == NO_NODE,
                forall|i: int| 0 <= i < self.nodes@.len() ==> (#[trigger] self.nodes@[i]).parent == NO_NODE
                    && self.nodes@[i].sibling == NO_NODE,
                text_ids_ok(self.node_texts@, self.text_pool.texts().len()),
                forall|h: u64| #[trigger] self.hash_table@.contains_key(h) ==> self.hash_table@[h] < self.nodes@.len(),
                st.hash_nexts@.len() == self.nodes@.len(),
                chains_ok(st.hash_nexts@, self.nodes@.len() as int),
                st.stones_index@.len() == self.nodes@.len() + 1,
                forall|i: int| 0 <= i < st.stones_index@.len() ==> #[trigger] st.stones_index@[i] <= st.stones_data@.len(),
                forall|i: int, j: int| 0 <= i <= j < st.stones_index@.len() ==> #[trigger] st.stones_index@[i] <= #[trigger] st.stones_index@[j],
                forall|i: int| 0 <= i < st.stones_data@.len() ==> #[trigger] st.stones_data@[i] < 225,
                forall|j: int| 0 <= j < st.all_btxt@.len() ==> (#[trigger] st.all_btxt@[j]).3 == NO_TEXT || st.all_btxt@[j].3 < self.text_pool.texts().len(),
                forall|j: int| 0 <= j < st.all_btxt@.len() ==> (#[trigger] st.all_btxt@[j]).0 <= self.nodes@.len(),
                forall|j: int| 0 <= j < st.all_btxt@.len() ==> 0 <= (#[trigger] st.all_btxt@[j]).1 < 16 && 0 <= st.all_btxt@[j].2 < 16,
                limit as int == if (num_records as int) < self.max_nodes as int { num_records as int } else { self.max_nodes as int },
                label_ids_ok(&ids, self.text_pool.texts().len()),
                label_texts_named(&ids, self.text_pool.texts(), self.encoding),
                ctx.pos <= ctx.data@.len(),
                ctx.data == data,
                st.stones_data@.len() <= ctx.pos,
                self.nodes@.len() <= rec + 1,
                self.nodes@.len() <= limit + 1,
                limit as int <= le32_at(data@, 0),
                self.nodes@[0].hash == 0 && self.nodes@[0].spec_depth() == 0,
                self.nodes@[0].spec_x() == -1 && self.nodes@[0].spec_y() == -1,
                self.nodes@.len() <= (if self.max_nodes > 1 { self.max_nodes as int } else { 1 }),
                self.hash_table@.contains_key(0) && self.hash_table@[0] == 0,
                forall|i: int| 1 <= i < self.nodes@.len() ==> #[trigger] self.nodes@[i].hash != 0,
                table_newest(self.hash_table@, self.nodes@),
                self.nodes@.len() + 3 <= ctx.pos,
                rec <= num_records,
                data@.len() + 1 < NO_NODE,
                num_records as int <= u32::MAX,
                self.max_nodes == old(self).max_nodes,
                self.encoding == old(self).encoding,
                limit as int <= num_records as int,
            ensures
                acc == target,
            decreases num_records - rec,
        {
            let ghost d = data@;
            let ghost pos0 = ctx.pos as int;
            let ghost rec0 = rec as int;
            let ghost w0 = db_walk(d, pos0, rec0, num_records as int, self.max_nodes as int, acc);
            if self.nodes.len() >= self.max_nodes {
                proof {
                    assert(w0 == acc);
                }
                break;
            }
            let num_key_bytes = match ctx.read_u16_le() {
                Some(v) => v,
                None => {
                    proof {
                        assert(w0 == acc);
                    }
                    break;
                },
            };
            rec += 1;
            if num_key_bytes == 0 {
                proof {
                    assert(w0 == db_walk(d, pos0 + 2, rec0 + 1, num_records as int, self.max_nodes as int, acc));
                }
                continue;
            }
            let key_buffer = match ctx.read_slice(num_key_bytes as usize) {
                Some(s) => s,
                None => {
                    proof {
                        assert(w0 == acc);
                    }
                    break;
                },
            };
            let nkb = num_key_bytes as usize;
            if nkb == 1 {
                let num_record_bytes = match ctx.read_u16_le() {
                    Some(v) => v,
                    None => {
                        proof {
                            assert(w0 == acc);
                        }
                        break;
                    },
                };
                let _ = ctx.skip(num_record_bytes as usize);
                proof {
                    assert(w0 == db_walk(d, ctx.pos as int, rec0 + 1, num_records as int, self.max_nodes as int, acc));
                }
                continue;
            }
            let num_stones: usize = if nkb >= 3 { (nkb - 3) / 2 } else { 0 };
            let mut temp_stones: Vec<u8> = Vec::new();
            let board = Self::key_board(key_buffer, num_stones, &mut temp_stones);
            let hash = board.get_canonical_hash();
            let ghost placed = key_placed(key_buffer@, (num_stones as int + 1) / 2, num_stones as int);
            proof {
                lemma_canonical_is_least(board, placed, hash);
                assert(key_buffer@ == d.subrange(pos0 + 2, pos0 + 2 + nkb));
                if num_stones == 0 {
                    assert(placed =~= Seq::<Stone>::empty());
                    assert(least_hash(placed, 8) == 0) by {
                        reveal_with_fuel(least_hash, 9);
                    }
                }
            }
            let num_record_bytes = match ctx.read_u16_le() {
                Some(v) => v,
                None => {
                    proof {
                        assert(w0 == acc);
                    }
                    break;
                },
            };
            let record_buffer = match ctx.read_slice(num_record_bytes as usize) {
                Some(s) => s,
                None => {
                    proof {
                        assert(w0 == acc);
                    }
                    break;
                },
            };
            proof {
                assert(w0 == db_walk(d, ctx.pos as int, rec0 + 1, num_records as int, self.max_nodes as int,
                    if hash != 0 { acc.push((hash, num_stones as u8)) } else { acc }));
            }
            let p_idx = self.nodes.len();
            let btxt_before = st.all_btxt.len();
            let (text_id, comment_id) = self.record_texts(record_buffer, &ids, p_idx, &mut st.all_btxt);
            let has_btxt = st.all_btxt.len() > 0 && st.all_btxt[st.all_btxt.len() - 1].0 == self.nodes.len();
            if num_stones == 0 && comment_id == NO_TEXT && text_id == NO_TEXT && !has_btxt {
                continue;
            }
            if hash == 0 {
                if comment_id != NO_TEXT || text_id != NO_TEXT {
                    let cid = if comment_id < 0xFFFF { comment_id } else { 0xFFFF };
                    let tid = if text_id < 0xFFFF { text_id } else { 0xFFFF };
                    let existing = self.node_texts[0];
                    let mut ex_cid = existing & 0xFFFF;
                    let mut ex_tid = (existing >> 16) & 0xFFFF;
                    if cid != 0xFFFF {
                        ex_cid = cid;
                    }
                    if tid != 0xFFFF {
                        ex_tid = tid;
                    }
                    proof {
                        lemma_pair_merge(existing, cid, tid, self.text_pool.texts().len());
                    }
                    self.node_texts.set(0, ex_cid | (ex_tid << 16));
                }
                continue;
            }
            let ghost data_len0 = st.stones_data@.len();
            st.stones_data.extend_from_slice(temp_stones.as_slice());
            st.stones_index.push(st.stones_data.len() as u32);
            let idx = self.nodes.len();
            let ghost old_nodes = self.nodes@;
            self.nodes.push(RenLibNode::new(-1, -1, NO_NODE, NO_NODE, NO_NODE, hash, num_stones as u8));
            proof {
                acc = acc.push((hash, num_stones as u8));
                assert forall|i: int| 0 <= i < acc.len() implies #[trigger] self.nodes@[i + 1].hash == acc[i].0
                    && self.nodes@[i + 1].spec_depth() == acc[i].1 by {
                    if i < acc.len() - 1 {
                        assert(self.nodes@[i + 1] == old_nodes[i + 1]);
                    }
                }
            }
            if comment_id != NO_TEXT || text_id != NO_TEXT {
                let cid = if comment_id < 0xFFFF { comment_id } else { 0xFFFF };
                let tid = if text_id < 0xFFFF { text_id } else { 0xFFFF };
                let texts = cid | (tid << 16);
                proof {
                    lemma_pack_halves(comment_id, text_id, self.text_pool.texts().len());
                }
                if idx < self.node_texts.len() {
                    self.node_texts.set(idx, texts);
                } else {
                    self.node_texts.push(texts);
                }
            }
            let head = match id_map_get(&self.hash_table, hash) {
                Some(h) => h,
                None => NO_NODE,
            };
            st.hash_nexts.push(head);
            id_map_insert(&mut self.hash_table, hash, idx as u32);
            proof {
                assert(links_ok(self.nodes@)) by {
                    assert forall|i: int| 0 <= i < self.nodes@.len() implies {
                        &&& (#[trigger] self.nodes@[i]).parent == NO_NODE || self.nodes@[i].parent < self.nodes@.len()
                        &&& self.nodes@[i].child == NO_NODE || self.nodes@[i].child < self.nodes@.len()
                        &&& self.nodes@[i].sibling == NO_NODE || self.nodes@[i].sibling < self.nodes@.len()
                    } by {
                        if i < idx {
                            assert(self.nodes@[i] == old_nodes[i]);
                        }
                    }
                }
                assert forall|i: int| 0 <= i < self.nodes@.len() implies (#[trigger] self.nodes@[i]).child == NO_NODE
                    && self.nodes@[i].parent == NO_NODE && self.nodes@[i].sibling == NO_NODE by {
                    if i < idx {
                        assert(self.nodes@[i] == old_nodes[i]);
                    }
                }
                assert forall|i: int, j: int| 0 <= i <= j < st.stones_index@.len() implies #[trigger] st.stones_index@[i] <= #[trigger] st.stones_index@[j] by {
                    if j == st.stones_index@.len() - 1 {
                        assert(st.stones_index@[i] <= st.stones_data@.len());
                    }
                }
                assert(chains_ok(st.hash_nexts@, self.nodes@.len() as int));
                assert forall|i: int| 0 <= i < self.nodes@.len() implies self.hash_table@.contains_key((#[trigger] self.nodes@[i]).hash)
                    && self.hash_table@[self.nodes@[i].hash] >= i by {
                    if i < idx {
                        assert(self.nodes@[i] == old_nodes[i]);
                    }
                }
                assert forall|h: u64| #[trigger] self.hash_table@.contains_key(h) implies self.hash_table@[h] < self.nodes@.len()
                    && self.nodes@[self.hash_table@[h] as int].hash == h by {
                    if h != hash {
                        assert(self.nodes@[self.hash_table@[h] as int] == old_nodes[self.hash_table@[h] as int]);
                    }
                }
            }
        }
        let ghost pre_nodes = self.nodes@;
        let absolute_t = self.reconstruct_tree_optimized(st.stones_data.as_slice(), st.stones_index.as_slice(), st.hash_nexts.as_slice());
        self.apply_btxt(&mut st.all_btxt, &absolute_t);
        proof {
            assert forall|h: u64| #[trigger] self.hash_table@.contains_key(h) implies self.hash_table@[h] < self.nodes@.len()
                && self.nodes@[self.hash_table@[h] as int].hash == h by {
                assert(self.nodes@[self.hash_table@[h] as int].hash == pre_nodes[self.hash_table@[h] as int].hash);
            }
            assert forall|i: int| 0 <= i < self.nodes@.len() implies self.hash_table@.contains_key((#[trigger] self.nodes@[i]).hash)
                && self.hash_table@[self.nodes@[i].hash] >= i by {
                assert(self.nodes@[i].hash == pre_nodes[i].hash);
                assert(pre_nodes[i].hash == pre_nodes[i].hash);
            }
        }
        Ok(())
    }
}

/// `slice::sort_unstable_by_key` on the parent index: the same entries,
/// ordered by parent (the order of entries with one parent is left open).
#[verifier::external_body]
fn sort_btxt_by_parent(v: &mut Vec<(usize, i8, i8, u32)>)
    ensures
        final(v)@.to_multiset() == old(v)@.to_multiset(),
        forall|i: int, j: int| 0 <= i < j < final(v)@.len() ==> (#[trigger] final(v)@[i]).0 <= (#[trigger] final(v)@[j]).0,
{
    v.sort_unstable_by_key(|e| e.0)
}

/// The comment half of a node's pair of text ids.
pub open spec fn comment_half(v: u32) -> u32 {
    v & 0xFFFF
}

/// The label-text half of a node's pair of text ids.
pub open spec fn text_half(v: u32) -> u32 {
    (v >> 16u32) & 0xFFFF
}

/// A text id as a node's half holds it: ids from 0xFFFF on become 0xFFFF.
pub open spec fn clamped_id(t: u32) -> u32 {
    if t < 0xFFFF {
        t
    } else {
        0xFFFF
    }
}

/// The node `j` steps along the sibling chain that starts at `first`
/// (`NO_NODE` once the chain has ended).
pub open spec fn sibling_at(nodes: Seq<RenLibNode>, first: u32, j: nat) -> u32
    decreases j,
{
    if j == 0 {
        first
    } else {
        let prev = sibling_at(nodes, first, (j - 1) as nat);
        if prev == NO_NODE || prev >= nodes.len() {
            NO_NODE
        } else {
            nodes[prev as int].sibling
        }
    }
}

/// The moves on the way up from node `p` to the root (at most `fuel`
/// nodes), the nearest first: the cell of each node that has one.
pub open spec fn path_up(nodes: Seq<RenLibNode>, p: u32, fuel: nat) -> Seq<(i8, i8)>
    decreases fuel,
{
    if fuel == 0 || p == NO_NODE || p >= nodes.len() {
        Seq::empty()
    } else {
        let nd = nodes[p as int];
        let rest = path_up(nodes, nd.parent, (fuel - 1) as nat);
        if nd.spec_x() >= 0 && nd.spec_y() >= 0 {
            seq![(nd.spec_x(), nd.spec_y())] + rest
        } else {
            rest
        }
    }
}

/// The stones after the last `q` moves of `hist` are played, the farthest
/// first, colours alternating from black; a move off the board places
/// nothing but still takes its turn.
pub open spec fn played_stones(hist: Seq<(i8, i8)>, q: int) -> Seq<Stone>
    decreases q,
{
    if q <= 0 || q > hist.len() {
        Seq::empty()
    } else {
        let m = hist[hist.len() - q];
        let before = played_stones(hist, q - 1);
        if on_board(m.0 as int, m.1 as int) {
            before.push((m.0 as int, m.1 as int, (q - 1) % 2))
        } else {
            before
        }
    }
}

/// The position a board text of entry `e` stands for: its parent's
/// position with a stone of the side to move on the text's cell, brought
/// to the root's numbering by the parent's symmetry.
pub open spec fn text_position(nodes: Seq<RenLibNode>, absolute_t: Seq<u8>, e: (usize, i8, i8, u32)) -> Seq<Stone> {
    let hist = path_up(nodes, e.0 as u32, nodes.len());
    let cell = transformed_index(e.1 as int, e.2 as int, absolute_t[e.0 as int] as int);
    played_stones(hist, hist.len() as int).push((cell % 15, cell / 15, (hist.len() % 2) as int))
}

/// `now` is `before` with label texts of `btxt` given to some nodes: each
/// comment half kept, and each pair that changed holding the id of one of
/// the board texts, on a child of that text's parent node whose hash is the
/// least of the eight hashes of the position the text stands for.
pub open spec fn texts_given(
    nodes: Seq<RenLibNode>,
    absolute_t: Seq<u8>,
    before: Seq<u32>,
    now: Seq<u32>,
    btxt: Seq<(usize, i8, i8, u32)>,
) -> bool {
    &&& now.len() == before.len()
    &&& forall|c: int| 0 <= c < now.len() ==> #[trigger] comment_half(now[c]) == comment_half(before[c])
    &&& forall|c: int| 0 <= c < now.len() && #[trigger] now[c] != before[c] ==> exists|k: int, j: nat|
        0 <= k < btxt.len() && text_half(now[c]) == clamped_id(btxt[k].3) && btxt[k].0 < nodes.len()
            && #[trigger] sibling_at(nodes, nodes[btxt[k].0 as int].child, j) == c
            && is_min8(|t: int| hash_of(text_position(nodes, absolute_t, btxt[k]), t), nodes[c].hash)
            && first_with_hash(nodes, nodes[btxt[k].0 as int].child, j, nodes[c].hash)
}

/// No node before place `j` of the sibling chain from `first` has hash `h`.
pub open spec fn first_with_hash(nodes: Seq<RenLibNode>, first: u32, j: nat, h: u64) -> bool {
    forall|l: nat| l < j && #[trigger] sibling_at(nodes, first, l) < nodes.len() ==> nodes[sibling_at(nodes, first, l) as int].hash != h
}

proof fn lemma_min8_same(f: spec_fn(int) -> u64, g: spec_fn(int) -> u64, m: u64)
    requires
        is_min8(f, m),
        forall|t: int| 0 <= t < 8 ==> #[trigger] f(t) == g(t),
    ensures
        is_min8(g, m),
{
    let t0 = choose|t: int| 0 <= t < 8 && #[trigger] f(t) == m;
    assert(g(t0) == m);
    assert forall|t: int| 0 <= t < 8 implies m <= #[trigger] g(t) by {
        assert(m <= f(t));
    }
}

proof fn lemma_hashes_back(b0: Board, b1: Board, b2: Board, x: int, y: int, c: int)
    requires
        b1.placed_from(b0, x, y, c),
        b2.removed_from(b1, x, y, c),
    ensures
        forall|t: int| 0 <= t < 8 ==> #[trigger] b2.hashes[t] == b0.hashes[t],
{
    assert forall|t: int| 0 <= t < 8 implies #[trigger] b2.hashes[t] == b0.hashes[t] by {
        let h = b0.hashes[t];
        let k = key_value(transformed_index(x, y, t), c);
        assert((h ^ k) ^ k == h) by (bit_vector);
    }
}

proof fn lemma_pair_halves(existing: u32, tid: u32)
    requires
        tid <= 0xFFFF,
    ensures
        comment_half((existing & 0x0000FFFF) | (tid << 16u32)) == comment_half(existing),
        text_half((existing & 0x0000FFFF) | (tid << 16u32)) == tid,
{
    assert(((existing & 0x0000FFFF) | (tid << 16u32)) & 0xFFFF == existing & 0xFFFF && (((existing & 0x0000FFFF) | (tid
        << 16u32)) >> 16u32) & 0xFFFF == tid) by (bit_vector)
        requires
            tid <= 0xFFFF,
    ;
}

proof fn lemma_texts_given_set(
    nodes: Seq<RenLibNode>,
    absolute_t: Seq<u8>,
    before: Seq<u32>,
    now: Seq<u32>,
    btxt: Seq<(usize, i8, i8, u32)>,
    c: int,
    v: u32,
    k: int,
    j: nat,
)
    requires
        texts_given(nodes, absolute_t, before, now, btxt),
        0 <= c < now.len(),
        0 <= k < btxt.len(),
        btxt[k].0 < nodes.len(),
        sibling_at(nodes, nodes[btxt[k].0 as int].child, j) == c,
        is_min8(|t: int| hash_of(text_position(nodes, absolute_t, btxt[k]), t), nodes[c].hash),
        first_with_hash(nodes, nodes[btxt[k].0 as int].child, j, nodes[c].hash),
        comment_half(v) == comment_half(now[c]),
        text_half(v) == clamped_id(btxt[k].3),
    ensures
        texts_given(nodes, absolute_t, before, now.update(c, v), btxt),
{
    let after = now.update(c, v);
    assert forall|d: int| 0 <= d < after.len() implies #[trigger] comment_half(after[d]) == comment_half(before[d]) by {
        assert(comment_half(now[d]) == comment_half(before[d]));
    }
    assert forall|d: int| 0 <= d < after.len() && #[trigger] after[d] != before[d] implies exists|q: int, l: nat|
        0 <= q < btxt.len() && text_half(after[d]) == clamped_id(btxt[q].3) && btxt[q].0 < nodes.len()
            && #[trigger] sibling_at(nodes, nodes[btxt[q].0 as int].child, l) == d
            && is_min8(|t: int| hash_of(text_position(nodes, absolute_t, btxt[q]), t), nodes[d].hash)
            && first_with_hash(nodes, nodes[btxt[q].0 as int].child, l, nodes[d].hash) by {
        if d == c {
            assert(sibling_at(nodes, nodes[btxt[k].0 as int].child, j) == c);
        } else {
            assert(now[d] != before[d]);
        }
    }
}

impl RenLibParser {
    /// Gives each board text of `all_btxt` to the child of its parent node
    /// whose position is the parent's plus a stone on the text's cell (in
    /// the root's numbering): the text becomes that child's text.
    fn apply_btxt(&mut self, all_btxt: &mut Vec<(usize, i8, i8, u32)>, absolute_t: &Vec<u8>)
        requires
            old(self).wf(),
            absolute_t@.len() == old(self).nodes@.len(),
            forall|i: int| 0 <= i < absolute_t@.len() ==> #[trigger] absolute_t@[i] < 8,
            forall|j: int| 0 <= j < old(all_btxt)@.len() ==> (#[trigger] old(all_btxt)@[j]).3 == NO_TEXT || old(all_btxt)@[j].3 < old(self).text_pool.texts().len(),
        ensures
            final(self).wf(),
            final(self).nodes == old(self).nodes,
            final(self).text_pool == old(self).text_pool,
            final(self).hash_table == old(self).hash_table,
            final(self).max_nodes == old(self).max_nodes,
            final(self).encoding == old(self).encoding,
            final(self).node_texts@.len() == old(self).node_texts@.len(),
            final(all_btxt)@.to_multiset() == old(all_btxt)@.to_multiset(),
            forall|i: int, j: int| 0 <= i < j < final(all_btxt)@.len() ==> (#[trigger] final(all_btxt)@[i]).0 <= (#[trigger] final(all_btxt)@[j]).0,
            texts_given(old(self).nodes@, absolute_t@, old(self).node_texts@, final(self).node_texts@, final(all_btxt)@),
    {
        let ghost unsorted = all_btxt@;
        let ghost texts0 = self.node_texts@;
        sort_btxt_by_parent(all_btxt);
        let ghost sorted = all_btxt@;
        proof {
            broadcast use vstd::seq_lib::group_to_multiset_ensures;
            assert forall|j: int| 0 <= j < all_btxt@.len() implies (#[trigger] all_btxt@[j]).3 == NO_TEXT || all_btxt@[j].3 < self.text_pool.texts().len() by {
                let e = all_btxt@[j];
                assert(all_btxt@.contains(e));
                assert(all_btxt@.to_multiset().contains(e));
                assert(unsorted.to_multiset().contains(e));
                assert(unsorted.contains(e));
                let k = choose|k: int| 0 <= k < unsorted.len() && unsorted[k] == e;
                assert(unsorted[k] == e);
            }
        }
        let n = self.nodes.len();
        let mut i: usize = 0;
        while i < all_btxt.len()
            invariant
                self.wf(),
                self.nodes == old(self).nodes,
                self.text_pool == old(self).text_pool,
                self.hash_table == old(self).hash_table,
                self.max_nodes == old(self).max_nodes,
                self.encoding == old(self).encoding,
                self.node_texts@.len() == old(self).node_texts@.len(),
                n == self.nodes@.len(),
                absolute_t@.len() == n,
                forall|q: int| 0 <= q < absolute_t@.len() ==> #[trigger] absolute_t@[q] < 8,
                forall|j: int| 0 <= j < all_btxt@.len() ==> (#[trigger] all_btxt@[j]).3 == NO_TEXT || all_btxt@[j].3 < self.text_pool.texts().len(),
                i <= all_btxt@.len(),
                all_btxt@ == sorted,
                texts0 == old(self).node_texts@,
                texts_given(self.nodes@, absolute_t@, texts0, self.node_texts@, sorted),
            decreases all_btxt@.len() - i,
        {
            let p_idx = all_btxt[i].0;
            let mut j = i;
            while j < all_btxt.len() && all_btxt[j].0 == p_idx
                invariant
                    i <= j <= all_btxt@.len(),
                    forall|q: int| i <= q < j ==> (#[trigger] all_btxt@[q]).0 == p_idx,
                decreases all_btxt@.len() - j,
            {
                j += 1;
            }
            if j == i {
                j = i + 1;
            }
            proof {
                assert(all_btxt@[i as int].0 == p_idx);
            }
            if p_idx < n {
                let mut history: Vec<(i8, i8)> = Vec::new();
                let mut curr = p_idx as u32;
                let mut fuel: usize = n;
                while curr != NO_NODE && fuel > 0
                    invariant
                        curr == NO_NODE || curr < n,
                        n == self.nodes@.len(),
                        links_ok(self.nodes@),
                        history@.len() + fuel <= n,
                        history@ + path_up(self.nodes@, curr, fuel as nat) == path_up(self.nodes@, p_idx as u32, n as nat),
                    decreases fuel,
                {
                    let nd = self.nodes[curr as usize];
                    let ghost h0 = history@;
                    if nd.x() >= 0 && nd.y() >= 0 {
                        history.push((nd.x(), nd.y()));
                    }
                    proof {
                        let rest = path_up(self.nodes@, nd.parent, (fuel - 1) as nat);
                        if nd.spec_x() >= 0 && nd.spec_y() >= 0 {
                            assert(h0 + (seq![(nd.spec_x(), nd.spec_y())] + rest) =~= history@ + rest);
                        }
                    }
                    curr = nd.parent;
                    fuel -= 1;
                }
                proof {
                    assert(path_up(self.nodes@, curr, fuel as nat) =~= Seq::<(i8, i8)>::empty());
                    assert(history@ =~= path_up(self.nodes@, p_idx as u32, n as nat));
                }
                let mut pb = Board::new();
                let mut h = history.len();
                while h > 0
                    invariant
                        h <= history@.len(),
                        pb.move_count == history@.len() - h,
                        history@.len() <= n,
                        n < NO_NODE,
                        pb.hashes_of(played_stones(history@, history@.len() - h)),
                    decreases h,
                {
                    h -= 1;
                    let (hx, hy) = history[h];
                    let ghost b0 = pb;
                    pb.make_move(hx, hy);
                    proof {
                        let q = history@.len() - h;
                        assert(history@[history@.len() - q] == (hx, hy));
                        if on_board(hx as int, hy as int) {
                            lemma_placed_hashes(b0, pb, played_stones(history@, q - 1), hx as int, hy as int, (q - 1) % 2);
                        } else {
                            assert(pb.hashes == b0.hashes);
                        }
                    }
                }
                let ghost pstones = played_stones(history@, history@.len() as int);
                let mut k = i;
                while k < j && k < all_btxt.len()
                    invariant
                        i <= k,
                        self.wf(),
                        self.nodes == old(self).nodes,
                        self.text_pool == old(self).text_pool,
                        self.hash_table == old(self).hash_table,
                        self.max_nodes == old(self).max_nodes,
                        self.encoding == old(self).encoding,
                        self.node_texts@.len() == old(self).node_texts@.len(),
                        n == self.nodes@.len(),
                        p_idx < n,
                        absolute_t@.len() == n,
                        forall|q: int| 0 <= q < absolute_t@.len() ==> #[trigger] absolute_t@[q] < 8,
                        forall|q: int| 0 <= q < all_btxt@.len() ==> (#[trigger] all_btxt@[q]).3 == NO_TEXT || all_btxt@[q].3 < self.text_pool.texts().len(),
                        pb.move_count <= n,
                        n < NO_NODE,
                        all_btxt@ == sorted,
                        texts0 == old(self).node_texts@,
                        texts_given(self.nodes@, absolute_t@, texts0, self.node_texts@, sorted),
                        forall|q: int| i <= q < j && q < all_btxt@.len() ==> (#[trigger] all_btxt@[q]).0 == p_idx,
                        history@ == path_up(self.nodes@, p_idx as u32, n as nat),
                        pstones == played_stones(history@, history@.len() as int),
                        pb.move_count == history@.len(),
                        pb.hashes_of(pstones),
                    decreases j - k,
                {
                    let (_, lx, ly, t_id) = all_btxt[k];
                    let root_idx = Zobrist::get_transformed_idx(lx, ly, absolute_t[p_idx] as usize);
                    let root_lx = (root_idx % 15) as i8;
                    let root_ly = (root_idx / 15) as i8;
                    let ghost b0 = pb;
                    pb.make_move(root_lx, root_ly);
                    let ghost b1 = pb;
                    let ghost placed = text_position(self.nodes@, absolute_t@, all_btxt@[k as int]);
                    proof {
                        assert(all_btxt@[k as int].0 == p_idx);
                        assert(root_idx as int == transformed_index(lx as int, ly as int, absolute_t@[p_idx as int] as int));
                        assert(placed == pstones.push((root_lx as int, root_ly as int, (history@.len() % 2) as int)));
                        lemma_placed_hashes(b0, b1, pstones, root_lx as int, root_ly as int, (history@.len() % 2) as int);
                    }
                    let target_hash = pb.get_canonical_hash();
                    proof {
                        lemma_min8_same(b1.hash_view(), |t: int| hash_of(placed, t), target_hash);
                    }
                    pb.undo_move(root_lx, root_ly);
                    proof {
                        lemma_hashes_back(b0, b1, pb, root_lx as int, root_ly as int, (history@.len() % 2) as int);
                    }
                    let mut c = self.nodes[p_idx].child;
                    let mut steps: usize = n;
                    while c != NO_NODE && steps > 0
                        invariant
                            c == NO_NODE || c < n,
                            n == self.nodes@.len(),
                            self.wf(),
                            self.nodes == old(self).nodes,
                            self.text_pool == old(self).text_pool,
                            self.hash_table == old(self).hash_table,
                            self.max_nodes == old(self).max_nodes,
                            self.encoding == old(self).encoding,
                            self.node_texts@.len() == old(self).node_texts@.len(),
                            t_id == NO_TEXT || t_id < self.text_pool.texts().len(),
                            k < all_btxt@.len(),
                            t_id == all_btxt@[k as int].3,
                            all_btxt@ == sorted,
                            texts0 == old(self).node_texts@,
                            texts_given(self.nodes@, absolute_t@, texts0, self.node_texts@, sorted),
                            all_btxt@[k as int].0 == p_idx,
                            p_idx < n,
                            steps <= n,
                            is_min8(|t: int| hash_of(text_position(self.nodes@, absolute_t@, all_btxt@[k as int]), t), target_hash),
                            first_with_hash(self.nodes@, self.nodes@[p_idx as int].child, (n - steps) as nat, target_hash),
                            c == sibling_at(self.nodes@, self.nodes@[p_idx as int].child, (n - steps) as nat),
                        decreases steps,
                    {
                        if self.nodes[c as usize].hash == target_hash {
                            let tid = if t_id < 0xFFFF { t_id } else { 0xFFFF };
                            let cur = self.node_texts[c as usize];
                            proof {
                                lemma_pair_text(cur, tid, self.text_pool.texts().len());
                                lemma_pair_halves(cur, tid);
                                lemma_texts_given_set(self.nodes@, absolute_t@, texts0, self.node_texts@, sorted, c as int,
                                    (cur & 0x0000FFFF) | (tid << 16u32), k as int, (n - steps) as nat);
                            }
                            self.node_texts.set(c as usize, (cur & 0x0000FFFF) | (tid << 16));
                            break;
                        }
                        proof {
                            let first = self.nodes@[p_idx as int].child;
                            assert(sibling_at(self.nodes@, first, (n - steps + 1) as nat) == self.nodes@[c as int].sibling);
                            assert forall|l: nat| l < (n - steps + 1) as nat && #[trigger] sibling_at(self.nodes@, first, l) < self.nodes@.len()
                                implies self.nodes@[sibling_at(self.nodes@, first, l) as int].hash != target_hash by {
                                if l == (n - steps) as nat {
                                    assert(sibling_at(self.nodes@, first, l) == c);
                                }
                            }
                        }
                        c = self.nodes[c as usize].sibling;
                        steps -= 1;
                    }
                    k += 1;
                }
            }
            i = j;
        }
    }

    /// Reads a database, decompressing it first when it is an LZ4 frame
    /// (magic number 0x184D2204). Fails when the record count cannot be
    /// read.
    pub fn parse_db(&mut self, data: &[u8]) -> (r: Result<(), std::io::Error>)
        requires
            old(self).wf(),
            old(self).hash_table@.dom() == Set::<u64>::empty(),
        ensures
            r is Ok ==> final(self).wf(),
            r is Ok ==> final(self).nodes@.len() >= 1 && table_in_range(final(self).hash_table@, final(self).nodes@.len()),
            r is Ok ==> children_in_order(final(self).nodes@) && parents_one_up(final(self).nodes@),
            r is Ok ==> db_root_ok(final(self).nodes@, final(self).hash_table@),
            r is Ok ==> table_newest(final(self).hash_table@, final(self).nodes@),
            r is Err ==> *final(self) == *old(self),
            (data@.len() < 4 || (data@[0], data@[1], data@[2], data@[3]) != (0x04u8, 0x22u8, 0x4Du8, 0x18u8)) && r is Ok
                ==> db_nodes_agree(final(self).nodes@, db_nodes(data@, old(self).max_nodes as int)),
            (data@.len() >= 4 && (data@[0], data@[1], data@[2], data@[3]) == (0x04u8, 0x22u8, 0x4Du8, 0x18u8)) && r is Ok
                ==> db_nodes_agree(final(self).nodes@, db_nodes(lz4_frame_decoded(data@), old(self).max_nodes as int)),
            r is Ok ==> final(self).nodes@.len() <= (if old(self).max_nodes > 1 { old(self).max_nodes as int } else { 1 }),
            (data@.len() < 4 || (data@[0], data@[1], data@[2], data@[3]) != (0x04u8, 0x22u8, 0x4Du8, 0x18u8)) && r is Ok
                ==> final(self).nodes@.len() <= le32_at(data@, 0) + 1,
            final(self).max_nodes == old(self).max_nodes,
            final(self).encoding == old(self).encoding,
            (data@.len() < 4 || (data@[0], data@[1], data@[2], data@[3]) != (0x04u8, 0x22u8, 0x4Du8, 0x18u8))
                && data@.len() + 1 < NO_NODE ==> (r is Err <==> data@.len() < 4),
    {
        let is_lz4 = data.len() >= 4 && data[0] == 0x04 && data[1] == 0x22 && data[2] == 0x4D && data[3] == 0x18;
        if is_lz4 {
            let decoded = lz4_frame_decode(data);
            if decoded.len() >= 0xFFFF_FFFE {
                return Err(eof_error());
            }
            self.parse_db_inner(decoded.as_slice())
        } else {
            if data.len() >= 0xFFFF_FFFE {
                return Err(eof_error());
            }
            self.parse_db_inner(data)
        }
    }
}

} // verus!
