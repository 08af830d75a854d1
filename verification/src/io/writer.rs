use vstd::prelude::*;
use crate::engine::node::{RenLibNode, TextPool, NO_NODE, NO_TEXT, MASK_TEXT, MASK_COMMENT, MASK_SIBLING, MASK_NOCHILD};
use crate::setting::TextEncoding;
use crate::io::codec::{encoded, decoded, encode_text, decode_text};
use crate::io::labels::{is_label_value, is_label_value_text, text_to_label_value};
use crate::io::parser::links_ok;
use crate::engine::zobrist::{Zobrist, transformed_index, transform, lemma_transform_on_board};
use crate::text::{push_char, push_str};
use rustc_hash::FxHashMap;
use byteorder::{LittleEndian, WriteBytesExt};

verus! {

/// `b`, a zero byte, and one more zero byte when that makes the length odd
/// (strings of a `.lib` file end on an even boundary).
pub open spec fn zero_padded(b: Seq<u8>) -> Seq<u8> {
    if (b.len() + 1) % 2 != 0 {
        b + seq![0u8, 0u8]
    } else {
        b + seq![0u8]
    }
}

/// The first node from `start` along the sibling links that is not deleted
/// (x == -2); `NO_NODE` past the end of the nodes (or after `fuel` steps).
pub open spec fn next_valid(nodes: Seq<RenLibNode>, start: u32, fuel: nat) -> u32
    decreases fuel,
{
    if fuel == 0 || start >= nodes.len() {
        NO_NODE
    } else if nodes[start as int].spec_x() != -2 {
        start
    } else {
        next_valid(nodes, nodes[start as int].sibling, (fuel - 1) as nat)
    }
}

/// The packed move of a node: x + 1 in the low nibble, y in the high one;
/// 0 for a pass.
pub open spec fn move_byte(n: RenLibNode) -> u8 {
    if n.spec_x() >= 0 && n.spec_y() >= 0 {
        ((n.spec_x() + 1) as u8) | ((n.spec_y() as u8) << 4u8)
    } else {
        0
    }
}

/// The comment id (low half) or text id (high half) of a packed pair;
/// `NO_TEXT` for 0xFFFF.
pub open spec fn half_id(texts: u32, high: bool) -> u32 {
    let v = if high { (texts >> 16u32) & 0xFFFF } else { texts & 0xFFFF };
    if v == 0xFFFF {
        NO_TEXT
    } else {
        v
    }
}

/// The packed (comment, text) ids of node `idx`; none for a node without
/// an entry.
pub open spec fn texts_of(node_texts: Seq<u32>, idx: int) -> u32 {
    if idx < node_texts.len() {
        node_texts[idx]
    } else {
        0xFFFF_FFFF
    }
}

/// The stored text `id`, zero-terminated and padded; nothing for an id the
/// pool does not hold.
pub open spec fn text_field(pool: Seq<Seq<u8>>, id: u32) -> Seq<u8> {
    if id < pool.len() {
        zero_padded(pool[id as int])
    } else {
        Seq::empty()
    }
}

/// The flags byte of a record.
pub open spec fn record_flags(idx: u32, child: u32, sibling: u32, comment: u32, text: u32) -> u8 {
    (if child == NO_NODE { MASK_NOCHILD } else { 0u8 }) | (if idx != 0 && sibling != NO_NODE {
        MASK_SIBLING
    } else {
        0u8
    }) | (if comment != NO_TEXT { MASK_COMMENT } else { 0u8 }) | (if text != NO_TEXT { MASK_TEXT } else { 0u8 })
}

/// The `.lib` record of node `idx`, given its first live child and sibling:
/// move, flags, two padding bytes when it has a text, then the comment and
/// the text.
pub open spec fn node_record(nodes: Seq<RenLibNode>, node_texts: Seq<u32>, pool: Seq<Seq<u8>>, idx: u32, child: u32, sibling: u32) -> Seq<u8> {
    let t = texts_of(node_texts, idx as int);
    let comment = half_id(t, false);
    let text = half_id(t, true);
    seq![move_byte(nodes[idx as int]), record_flags(idx, child, sibling, comment, text)] + (if text != NO_TEXT {
        seq![0u8, 0u8]
    } else {
        Seq::empty()
    }) + text_field(pool, comment) + text_field(pool, text)
}

/// The records of the subtree of `idx` in depth-first order: the node, its
/// first live child's subtree (with that child's siblings), then (below
/// the root) its next live sibling's subtree; `fuel` bounds the depth.
pub open spec fn subtree_bytes(nodes: Seq<RenLibNode>, node_texts: Seq<u32>, pool: Seq<Seq<u8>>, idx: u32, fuel: nat) -> Seq<u8>
    decreases fuel,
{
    if fuel == 0 || idx >= nodes.len() {
        Seq::empty()
    } else {
        let f = nodes.len();
        let child = next_valid(nodes, nodes[idx as int].child, f);
        let sibling = next_valid(nodes, nodes[idx as int].sibling, f);
        node_record(nodes, node_texts, pool, idx, child, sibling) + (if child != NO_NODE {
            subtree_bytes(nodes, node_texts, pool, child, (fuel - 1) as nat)
        } else {
            Seq::empty()
        }) + (if idx != 0 && sibling != NO_NODE {
            subtree_bytes(nodes, node_texts, pool, sibling, (fuel - 1) as nat)
        } else {
            Seq::empty()
        })
    }
}

/// A `.lib` file: a 20-byte header of zeros, then the records of the tree
/// from the root (nothing more without nodes).
pub open spec fn lib_file(nodes: Seq<RenLibNode>, node_texts: Seq<u32>, pool: Seq<Seq<u8>>) -> Seq<u8> {
    Seq::new(20, |i: int| 0u8) + if nodes.len() == 0 {
        Seq::empty()
    } else {
        subtree_bytes(nodes, node_texts, pool, 0, nodes.len())
    }
}

/// The records still to write for the pending subtrees on `stack`, the top
/// (last) first.
pub open spec fn pending_bytes(nodes: Seq<RenLibNode>, node_texts: Seq<u32>, pool: Seq<Seq<u8>>, stack: Seq<(u32, usize)>) -> Seq<u8>
    decreases stack.len(),
{
    if stack.len() == 0 {
        Seq::empty()
    } else {
        subtree_bytes(nodes, node_texts, pool, stack.last().0, stack.last().1 as nat) + pending_bytes(
            nodes,
            node_texts,
            pool,
            stack.drop_last(),
        )
    }
}

/// Writes a tree of nodes as a `.lib` file or a `.db` database.
pub struct RenLibWriter {
    pub buffer: Vec<u8>,
    pub encoding: TextEncoding,
}

/// The first live node from `start` along the sibling links.
fn first_live(nodes: &[RenLibNode], start: u32) -> (r: u32)
    ensures
        r == next_valid(nodes@, start, nodes@.len()),
        r == NO_NODE || r < nodes@.len(),
{
    let mut cur = start;
    let mut fuel: usize = nodes.len();
    while fuel > 0 && (cur as usize) < nodes.len()
        invariant
            next_valid(nodes@, cur, fuel as nat) == next_valid(nodes@, start, nodes@.len()),
        decreases fuel,
    {
        if nodes[cur as usize].x() != -2 {
            return cur;
        }
        cur = nodes[cur as usize].sibling;
        fuel -= 1;
    }
    NO_NODE
}

/// The packed move of `node`.
fn move_byte_of(node: &RenLibNode) -> (b: u8)
    requires
        node.spec_x() < 127,
    ensures
        b == move_byte(*node),
{
    if node.x() >= 0 && node.y() >= 0 {
        ((node.x() + 1) as u8) | ((node.y() as u8) << 4u8)
    } else {
        0u8
    }
}

/// One half of a packed pair of ids.
fn half_of(texts: u32, high: bool) -> (r: u32)
    ensures
        r == half_id(texts, high),
{
    let v = if high { (texts >> 16) & 0xFFFF } else { texts & 0xFFFF };
    if v == 0xFFFF {
        NO_TEXT
    } else {
        v
    }
}

/// The flags byte of a record.
fn flags_of(idx: u32, child: u32, sibling: u32, comment: u32, text: u32) -> (f: u8)
    ensures
        f == record_flags(idx, child, sibling, comment, text),
{
    let a: u8 = if child == NO_NODE { MASK_NOCHILD } else { 0u8 };
    let b: u8 = if idx != 0 && sibling != NO_NODE { MASK_SIBLING } else { 0u8 };
    let c: u8 = if comment != NO_TEXT { MASK_COMMENT } else { 0u8 };
    let d: u8 = if text != NO_TEXT { MASK_TEXT } else { 0u8 };
    a | b | c | d
}

impl RenLibWriter {
    /// A writer with an empty buffer.
    pub fn new(encoding: TextEncoding) -> (w: Self)
        ensures
            w.buffer@ == Seq::<u8>::empty(),
            w.encoding == encoding,
    {
        RenLibWriter { buffer: Vec::with_capacity(1024 * 1024), encoding }
    }

    /// Appends `s` in the writer's encoding, zero-terminated and padded to an
    /// even length.
    pub fn write_string(&mut self, s: &str)
        ensures
            final(self).buffer@ == old(self).buffer@ + zero_padded(encoded(old(self).encoding, s@)),
            final(self).encoding == old(self).encoding,
    {
        let encoded_bytes = encode_text(self.encoding, s);
        self.buffer.extend_from_slice(encoded_bytes.as_slice());
        self.buffer.push(0);
        if encoded_bytes.len() % 2 == 0 {
            self.buffer.push(0);
        }
        proof {
            let e = encoded(old(self).encoding, s@);
            if (e.len() + 1) % 2 != 0 {
                assert(self.buffer@ =~= old(self).buffer@ + (e + seq![0u8, 0u8]));
            } else {
                assert(self.buffer@ =~= old(self).buffer@ + (e + seq![0u8]));
            }
        }
    }

    /// Appends the stored text `id`, zero-terminated and padded, if the pool
    /// holds it.
    fn write_pool_text(&mut self, pool: &TextPool, id: u32)
        requires
            pool.wf(),
        ensures
            final(self).buffer@ == old(self).buffer@ + text_field(pool.texts(), id),
            final(self).encoding == old(self).encoding,
    {
        match pool.get(id) {
            Some(bytes) => {
                self.buffer.extend_from_slice(bytes);
                self.buffer.push(0);
                if bytes.len() % 2 == 0 {
                    self.buffer.push(0);
                }
                proof {
                    let e = pool.texts()[id as int];
                    if (e.len() + 1) % 2 != 0 {
                        assert(self.buffer@ =~= old(self).buffer@ + (e + seq![0u8, 0u8]));
                    } else {
                        assert(self.buffer@ =~= old(self).buffer@ + (e + seq![0u8]));
                    }
                }
            },
            None => {
                proof {
                    assert(self.buffer@ =~= old(self).buffer@ + Seq::<u8>::empty());
                }
            },
        }
    }

    /// Appends the record of node `idx`.
    fn write_record(&mut self, nodes: &[RenLibNode], node_texts: &[u32], pool: &TextPool, idx: u32, child: u32, sibling: u32)
        requires
            pool.wf(),
            idx < nodes@.len(),
            nodes@[idx as int].spec_x() < 127,
        ensures
            final(self).buffer@ == old(self).buffer@ + node_record(nodes@, node_texts@, pool.texts(), idx, child, sibling),
            final(self).encoding == old(self).encoding,
    {
        let node = nodes[idx as usize];
        let mv = move_byte_of(&node);
        let texts = if (idx as usize) < node_texts.len() { node_texts[idx as usize] } else { 0xFFFF_FFFF };
        let comment_id = half_of(texts, false);
        let text_id = half_of(texts, true);
        let flags = flags_of(idx, child, sibling, comment_id, text_id);
        let ghost start = self.buffer@;
        self.buffer.push(mv);
        self.buffer.push(flags);
        if text_id != NO_TEXT {
            self.buffer.push(0);
            self.buffer.push(0);
        }
        let ghost head = self.buffer@;
        self.write_pool_text(pool, comment_id);
        self.write_pool_text(pool, text_id);
        proof {
            let t = texts_of(node_texts@, idx as int);
            assert(head =~= start + (seq![mv, flags] + (if text_id != NO_TEXT { seq![0u8, 0u8] } else { Seq::empty() })));
            assert(self.buffer@ =~= start + node_record(nodes@, node_texts@, pool.texts(), idx, child, sibling));
        }
    }

    /// The nodes as a `.lib` file: a 20-byte header of zeros, then the
    /// records of the live nodes in depth-first order from the root.
    pub fn save(&mut self, nodes: &[RenLibNode], node_texts: &[u32], pool: &TextPool) -> (out: Vec<u8>)
        requires
            pool.wf(),
            forall|i: int| 0 <= i < nodes@.len() ==> #[trigger] nodes@[i].spec_x() < 127,
        ensures
            out@ == lib_file(nodes@, node_texts@, pool.texts()),
            final(self).buffer@ == out@,
            final(self).encoding == old(self).encoding,
    {
        self.buffer.clear();
        let mut i: usize = 0;
        while i < 20
            invariant
                i <= 20,
                self.buffer@ == Seq::new(i as nat, |j: int| 0u8),
                self.encoding == old(self).encoding,
            decreases 20 - i,
        {
            self.buffer.push(0);
            proof {
                assert(self.buffer@ =~= Seq::new((i + 1) as nat, |j: int| 0u8));
            }
            i += 1;
        }
        let ghost header = self.buffer@;
        let ghost ns = nodes@;
        let ghost ts = node_texts@;
        let ghost ps = pool.texts();
        if nodes.len() == 0 {
            proof {
                assert(self.buffer@ =~= lib_file(ns, ts, ps));
            }
            return self.copy_buffer();
        }
        let fuel0: usize = nodes.len();
        let mut stack: Vec<(u32, usize)> = Vec::new();
        stack.push((0, fuel0));
        proof {
            lemma_pending_push(ns, ts, ps, Seq::empty(), (0u32, fuel0));
            assert(Seq::<(u32, usize)>::empty().push((0u32, fuel0)) =~= stack@);
            assert(subtree_bytes(ns, ts, ps, 0, fuel0 as nat) + Seq::<u8>::empty() =~= subtree_bytes(ns, ts, ps, 0, fuel0 as nat));
        }
        while stack.len() > 0
            invariant
                ns == nodes@,
                ts == node_texts@,
                ps == pool.texts(),
                pool.wf(),
                ns.len() > 0,
                forall|i: int| 0 <= i < ns.len() ==> #[trigger] ns[i].spec_x() < 127,
                self.buffer@ + pending_bytes(ns, ts, ps, stack@) == lib_file(ns, ts, ps),
                self.encoding == old(self).encoding,
            decreases pending_measure(stack@),
        {
            let ghost before = stack@;
            let (idx, fuel) = stack.pop().unwrap();
            let ghost rest = stack@;
            proof {
                assert(before =~= rest.push((idx, fuel)));
                lemma_pending_push(ns, ts, ps, rest, (idx, fuel));
            }
            if fuel > 0 && (idx as usize) < nodes.len() {
                let ghost buf0 = self.buffer@;
                let node = nodes[idx as usize];
                let real_child = first_live(nodes, node.child);
                let real_sibling = first_live(nodes, node.sibling);
                self.write_record(nodes, node_texts, pool, idx, real_child, real_sibling);
                proof {
                    lemma_pow3_pos((fuel - 1) as nat);
                }
                if idx != 0 && real_sibling != NO_NODE {
                    stack.push((real_sibling, fuel - 1));
                    proof {
                        lemma_pending_push(ns, ts, ps, rest, (real_sibling, (fuel - 1) as usize));
                    }
                }
                let ghost mid = stack@;
                if real_child != NO_NODE {
                    stack.push((real_child, fuel - 1));
                    proof {
                        lemma_pending_push(ns, ts, ps, mid, (real_child, (fuel - 1) as usize));
                    }
                }
                proof {
                    let rec = node_record(ns, ts, ps, idx, real_child, real_sibling);
                    let cpart = if real_child != NO_NODE {
                        subtree_bytes(ns, ts, ps, real_child, (fuel - 1) as nat)
                    } else {
                        Seq::empty()
                    };
                    let spart = if idx != 0 && real_sibling != NO_NODE {
                        subtree_bytes(ns, ts, ps, real_sibling, (fuel - 1) as nat)
                    } else {
                        Seq::empty()
                    };
                    assert(subtree_bytes(ns, ts, ps, idx, fuel as nat) == rec + cpart + spart);
                    assert(pending_bytes(ns, ts, ps, mid) =~= spart + pending_bytes(ns, ts, ps, rest));
                    assert(pending_bytes(ns, ts, ps, stack@) =~= cpart + (spart + pending_bytes(ns, ts, ps, rest)));
                    assert(self.buffer@ =~= buf0 + rec);
                    assert(self.buffer@ + pending_bytes(ns, ts, ps, stack@) =~= buf0 + (rec + cpart + spart + pending_bytes(ns, ts, ps, rest)));
                    assert(pow3(fuel as nat) == 3 * pow3((fuel - 1) as nat));
                }
            } else {
                proof {
                    assert(subtree_bytes(ns, ts, ps, idx, fuel as nat) == Seq::<u8>::empty());
                    assert(pending_bytes(ns, ts, ps, before) =~= pending_bytes(ns, ts, ps, stack@));
                    lemma_pow3_pos(fuel as nat);
                }
            }
        }
        proof {
            assert(self.buffer@ =~= lib_file(ns, ts, ps));
        }
        self.copy_buffer()
    }

    /// A copy of the buffer.
    fn copy_buffer(&self) -> (out: Vec<u8>)
        ensures
            out@ == self.buffer@,
    {
        let out = self.buffer.clone();
        proof {
            assert(out@ =~= self.buffer@);
        }
        out
    }
}

/// Size of the work left on a stack of (node, fuel) entries.
pub open spec fn pending_measure(stack: Seq<(u32, usize)>) -> nat
    decreases stack.len(),
{
    if stack.len() == 0 {
        0
    } else {
        pow3(stack.last().1 as nat) + pending_measure(stack.drop_last())
    }
}

/// 3 to the power `n`.
pub open spec fn pow3(n: nat) -> nat
    decreases n,
{
    if n == 0 {
        1
    } else {
        3 * pow3((n - 1) as nat)
    }
}

pub proof fn lemma_pow3_pos(n: nat)
    ensures
        pow3(n) >= 1,
    decreases n,
{
    if n > 0 {
        lemma_pow3_pos((n - 1) as nat);
    }
}

proof fn lemma_pending_push(ns: Seq<RenLibNode>, ts: Seq<u32>, ps: Seq<Seq<u8>>, s: Seq<(u32, usize)>, e: (u32, usize))
    ensures
        pending_bytes(ns, ts, ps, s.push(e)) == subtree_bytes(ns, ts, ps, e.0, e.1 as nat) + pending_bytes(ns, ts, ps, s),
        pending_measure(s.push(e)) == pow3(e.1 as nat) + pending_measure(s),
{
    assert(s.push(e).drop_last() =~= s);
}


/// The UTF-8 bytes of a character.
pub open spec fn utf8_char(c: char) -> Seq<u8> {
    let v = c as u32;
    if v < 0x80 {
        seq![v as u8]
    } else if v < 0x800 {
        seq![(0xC0 | (v >> 6u32)) as u8, (0x80 | (v & 0x3F)) as u8]
    } else if v < 0x10000 {
        seq![(0xE0 | (v >> 12u32)) as u8, (0x80 | ((v >> 6u32) & 0x3F)) as u8, (0x80 | (v & 0x3F)) as u8]
    } else {
        seq![
            (0xF0 | (v >> 18u32)) as u8,
            (0x80 | ((v >> 12u32) & 0x3F)) as u8,
            (0x80 | ((v >> 6u32) & 0x3F)) as u8,
            (0x80 | (v & 0x3F)) as u8,
        ]
    }
}

/// The UTF-8 bytes of a text (what `str::as_bytes` gives).
pub open spec fn utf8(s: Seq<char>) -> Seq<u8>
    decreases s.len(),
{
    if s.len() == 0 {
        Seq::empty()
    } else {
        utf8(s.drop_last()) + utf8_char(s.last())
    }
}

/// The text field of a record (see `record_text`).
fn record_text_of(btxt: &Vec<(i8, i8, String)>, comment: &String) -> (text_field: Vec<u8>)
    ensures
        text_field@ == record_text(btxt@, comment@),
{
        let mut text_field: Vec<u8> = Vec::new();
        if btxt.len() > 0 {
            push_str_bytes(&mut text_field, "@BTXT@");
            proof {
                reveal_strlit("@BTXT@");
                assert(utf8("@BTXT@"@) =~= btxt_marker()) by {
                    reveal_with_fuel(utf8, 7);
                }
            }
            let mut q: usize = 0;
            while q < btxt.len()
                invariant
                    q <= btxt@.len(),
                    text_field@ == btxt_marker() + btxt_bytes(btxt@.take(q as int)),
                decreases btxt@.len() - q,
            {
                proof {
                    assert(btxt@.take(q + 1).drop_last() =~= btxt@.take(q as int));
                }
                let (bx, by, ref txt) = btxt[q];
                text_field.push(coord_to_hex(bx));
                text_field.push(coord_to_hex(by));
                push_utf8(&mut text_field, txt.as_str());
                text_field.push(10);
                q += 1;
                proof {
                    assert(text_field@ =~= btxt_marker() + btxt_bytes(btxt@.take(q as int)));
                }
            }
            proof {
                assert(btxt@.take(q as int) =~= btxt@);
            }
            if comment.as_str().unicode_len() > 0 {
                text_field.push(8);
                push_utf8(&mut text_field, comment.as_str());
            }
        } else if comment.as_str().unicode_len() > 0 {
            push_utf8(&mut text_field, comment.as_str());
        }
    proof {
        assert(text_field@ =~= record_text(btxt@, comment@));
    }
    text_field
}

/// Appends the UTF-8 bytes of `s`.
fn push_utf8(buf: &mut Vec<u8>, s: &str)
    ensures
        final(buf)@ == old(buf)@ + utf8(s@),
{
    let cs = crate::text::chars_of(s);
    let mut i: usize = 0;
    while i < cs.len()
        invariant
            i <= cs@.len(),
            cs@ == s@,
            buf@ == old(buf)@ + utf8(cs@.take(i as int)),
        decreases cs@.len() - i,
    {
        let c = cs[i];
        let v = c as u32;
        let ghost before = buf@;
        if v < 0x80 {
            buf.push(v as u8);
        } else if v < 0x800 {
            buf.push((0xC0 | (v >> 6)) as u8);
            buf.push((0x80 | (v & 0x3F)) as u8);
        } else if v < 0x10000 {
            buf.push((0xE0 | (v >> 12)) as u8);
            buf.push((0x80 | ((v >> 6) & 0x3F)) as u8);
            buf.push((0x80 | (v & 0x3F)) as u8);
        } else {
            buf.push((0xF0 | (v >> 18)) as u8);
            buf.push((0x80 | ((v >> 12) & 0x3F)) as u8);
            buf.push((0x80 | ((v >> 6) & 0x3F)) as u8);
            buf.push((0x80 | (v & 0x3F)) as u8);
        }
        proof {
            assert(cs@.take(i + 1).drop_last() =~= cs@.take(i as int));
            assert(cs@.take(i + 1).last() == c);
            assert(buf@ =~= before + utf8_char(c));
        }
        i += 1;
    }
    proof {
        assert(cs@.take(cs@.len() as int) =~= cs@);
    }
}

/// `WriteBytesExt::write_i16::<LittleEndian>` of `byteorder` on a vector:
/// appends the two little-endian bytes of `v` (writing to a vector cannot
/// fail).
#[verifier::external_body]
fn write_i16_le(buf: &mut Vec<u8>, v: i16)
    ensures
        final(buf)@ == old(buf)@ + seq![(v as u16 & 0xFF) as u8, ((v as u16) >> 8u16) as u8],
{
    buf.write_i16::<LittleEndian>(v).unwrap();
}

/// `WriteBytesExt::write_u16::<LittleEndian>` of `byteorder` on a vector:
/// appends the two little-endian bytes of `v` (writing to a vector cannot
/// fail).
#[verifier::external_body]
fn write_u16_le(buf: &mut Vec<u8>, v: u16)
    ensures
        final(buf)@ == old(buf)@ + seq![(v & 0xFF) as u8, (v >> 8u16) as u8],
{
    buf.write_u16::<LittleEndian>(v).unwrap();
}

/// `FxHashMap::default` for the buckets of the positions written so far,
/// keyed by a hash of their stones: an empty map.
#[verifier::external_body]
fn bucket_map_new() -> (m: FxHashMap<u64, Vec<usize>>)
    ensures
        m@.dom() == Set::<u64>::empty(),
{
    FxHashMap::default()
}

/// `HashMap::get` on the bucket map, the bucket found cloned.
#[verifier::external_body]
fn bucket_map_get(m: &FxHashMap<u64, Vec<usize>>, k: u64) -> (r: Option<Vec<usize>>)
    ensures
        r is Some <==> m@.contains_key(k),
        r is Some ==> r->0@ == m@[k]@,
{
    m.get(&k).cloned()
}

/// `HashMap::insert` on the bucket map: stores `v` under `k`.
#[verifier::external_body]
fn bucket_map_insert(m: &mut FxHashMap<u64, Vec<usize>>, k: u64, v: Vec<usize>)
    ensures
        final(m)@ == old(m)@.insert(k, v),
{
    m.insert(k, v);
}

/// The 64-bit FNV-1a hash of a key's bytes, taken in order.
spec fn fnv1a(k: Seq<i8>) -> u64
    decreases k.len(),
{
    if k.len() == 0 {
        0xcbf2_9ce4_8422_2325u64
    } else {
        (fnv1a(k.drop_last()) ^ (k.last() as u8 as u64)).wrapping_mul(0x0000_0100_0000_01b3u64)
    }
}

/// A hash of a position's flat key (64-bit FNV-1a of its bytes); equal keys
/// hash alike, and only buckets are chosen by it.
fn key_hash(k: &Vec<i8>) -> (h: u64)
    ensures
        h == fnv1a(k@),
{
    let mut h: u64 = 0xcbf2_9ce4_8422_2325;
    let mut i: usize = 0;
    while i < k.len()
        invariant
            i <= k@.len(),
            h == fnv1a(k@.take(i as int)),
        decreases k@.len() - i,
    {
        proof {
            assert(k@.take(i + 1).drop_last() =~= k@.take(i as int));
        }
        h = (h ^ (k[i] as u8 as u64)).wrapping_mul(0x0000_0100_0000_01b3);
        i += 1;
    }
    proof {
        assert(k@.take(i as int) =~= k@);
    }
    h
}

/// A position of the database being written: its stones, label,
/// evaluation, comment, depth and board texts.
struct DbEntry {
    black_stones: Vec<(i8, i8)>,
    white_stones: Vec<(i8, i8)>,
    label: u8,
    value: i16,
    comment: String,
    depth: u8,
    btxt_list: Vec<(i8, i8, String)>,
}

/// The shape every collected position has: the moves of its path dealt
/// alternately to black and white (black first), all on the board, the
/// depth their count, and board texts that are no label texts, each on a
/// cell of the board.
spec fn entry_shaped(e: DbEntry) -> bool {
    &&& (e.black_stones@.len() == e.white_stones@.len() || e.black_stones@.len() == e.white_stones@.len() + 1)
    &&& forall|q: int| 0 <= q < e.black_stones@.len() ==> (#[trigger] e.black_stones@[q]).0 >= 0 && e.black_stones@[q].1 >= 0
    &&& forall|q: int| 0 <= q < e.white_stones@.len() ==> (#[trigger] e.white_stones@[q]).0 >= 0 && e.white_stones@[q].1 >= 0
    &&& e.depth == (e.black_stones@.len() + e.white_stones@.len()) as u8
    &&& forall|q: int| 0 <= q < e.btxt_list@.len() ==> !is_label_value((#[trigger] e.btxt_list@[q]).2@)
        && e.btxt_list@[q].0 >= 0 && e.btxt_list@[q].1 >= 0
}

/// The bytes of a list of stones: x, then y, of each in turn.
spec fn stone_bytes(s: Seq<(i8, i8)>) -> Seq<u8>
    decreases s.len(),
{
    if s.len() == 0 {
        Seq::empty()
    } else {
        stone_bytes(s.drop_last()) + seq![s.last().0 as u8, s.last().1 as u8]
    }
}

/// The hexadecimal digit of a board coordinate, kept in 0..=14.
spec fn hex_digit(c: i8) -> u8 {
    if c <= 0 {
        48u8
    } else if c < 10 {
        (48 + c) as u8
    } else if c <= 14 {
        (55 + c) as u8
    } else {
        69u8
    }
}

/// The bytes of `@BTXT@`.
spec fn btxt_marker() -> Seq<u8> {
    seq![64u8, 66u8, 84u8, 88u8, 84u8, 64u8]
}

/// The board texts of a record: for each, its cell in two hex digits, its
/// text in UTF-8 and a line feed.
spec fn btxt_bytes(l: Seq<(i8, i8, String)>) -> Seq<u8>
    decreases l.len(),
{
    if l.len() == 0 {
        Seq::empty()
    } else {
        btxt_bytes(l.drop_last()) + seq![hex_digit(l.last().0), hex_digit(l.last().1)] + utf8(l.last().2@) + seq![10u8]
    }
}

/// The text field of a record: the board texts after `@BTXT@`, then the
/// comment (after a byte 8 where board texts come first).
spec fn record_text(btxt: Seq<(i8, i8, String)>, comment: Seq<char>) -> Seq<u8> {
    if btxt.len() > 0 {
        btxt_marker() + btxt_bytes(btxt) + (if comment.len() > 0 { seq![8u8] + utf8(comment) } else { Seq::empty() })
    } else if comment.len() > 0 {
        utf8(comment)
    } else {
        Seq::empty()
    }
}

/// A 16-bit number, low byte first.
spec fn le16(v: u16) -> Seq<u8> {
    seq![(v & 0xFF) as u8, (v >> 8u16) as u8]
}

/// One record of a database: the key (its length, the board size, the
/// stones), then either the data (its length, label, evaluation, depth
/// bound and text field) or a zero length where there is none.
spec fn db_record(b: Seq<(i8, i8)>, w: Seq<(i8, i8)>, label: u8, value: i16, btxt: Seq<(i8, i8, String)>, comment: Seq<char>) -> Seq<u8> {
    let ns = (b.len() as u16).wrapping_add(w.len() as u16);
    let key = le16(3u16.wrapping_add(ns.wrapping_mul(2))) + seq![2u8, 15u8, 15u8] + stone_bytes(b) + stone_bytes(w);
    let tf = record_text(btxt, comment);
    if label != 0 || value != 0 || tf.len() > 0 {
        key + le16(5u16.wrapping_add(tf.len() as u16)) + seq![label] + seq![(value as u16 & 0xFF) as u8, ((value as u16) >> 8u16) as u8]
            + le16(if value != 0 { 3u16 } else { 0u16 }) + tf
    } else {
        key + le16(0u16)
    }
}

/// The root's position: no stones, depth 0.
spec fn entry_at_root(e: DbEntry) -> bool {
    &&& e.black_stones@.len() == 0
    &&& e.white_stones@.len() == 0
    &&& e.depth == 0
}

/// The hexadecimal digit of a coordinate, clamped to 0..=14.
fn coord_to_hex(c: i8) -> (r: u8)
    ensures
        r == (if c <= 0 { 48u8 } else if c < 10 { (48 + c) as u8 } else if c <= 14 { (55 + c) as u8 } else { 69u8 }),
{
    let c2: u8 = if c < 0 { 0 } else if c > 14 { 14 } else { c as u8 };
    if c2 < 10 {
        48 + c2
    } else {
        65 + (c2 - 10)
    }
}

/// Sorts stones by `x * 15 + y` (stones of equal key are equal).
fn sort_stones(v: &mut Vec<(i8, i8)>)
    ensures
        final(v)@.len() == old(v)@.len(),
        final(v)@.to_multiset() == old(v)@.to_multiset(),
        forall|i: int, j: int| 0 <= i < j < final(v)@.len() ==> stone_key(#[trigger] final(v)@[i]) <= stone_key(#[trigger] final(v)@[j]),
{
    let n = v.len();
    let mut i: usize = 1;
    if n == 0 {
        return;
    }
    while i < n
        invariant
            1 <= i <= n,
            n == v@.len(),
            v@.to_multiset() == old(v)@.to_multiset(),
            forall|a: int, b: int| 0 <= a < b < i ==> stone_key(#[trigger] v@[a]) <= stone_key(#[trigger] v@[b]),
        decreases n - i,
    {
        let mut j = i;
        while j > 0 && stone_key_of(v[j - 1]) > stone_key_of(v[j])
            invariant
                0 <= j <= i < n,
                n == v@.len(),
                v@.to_multiset() == old(v)@.to_multiset(),
                forall|a: int, b: int| 0 <= a < b <= i && b != j ==> stone_key(#[trigger] v@[a]) <= stone_key(#[trigger] v@[b]),
                forall|a: int, b: int| 0 <= a < j && j < b <= i ==> stone_key(#[trigger] v@[a]) <= stone_key(#[trigger] v@[b]),
            decreases j,
        {
            let a = v[j - 1];
            let b = v[j];
            let ghost before = v@;
            v.set(j - 1, b);
            v.set(j, a);
            proof {
                broadcast use vstd::seq_lib::group_to_multiset_ensures;
                assert(v@ =~= before.update(j - 1, b).update(j as int, a));
                lemma_swap_multiset(before, j - 1, j as int);
            }
            j -= 1;
        }
        i += 1;
    }
}

proof fn lemma_swap_multiset(s: Seq<(i8, i8)>, a: int, b: int)
    requires
        0 <= a < b < s.len(),
    ensures
        s.update(a, s[b]).update(b, s[a]).to_multiset() == s.to_multiset(),
{
    broadcast use vstd::seq_lib::group_to_multiset_ensures;
    let t = s.update(a, s[b]);
    assert(t.to_multiset() == s.to_multiset().remove(s[a]).insert(s[b]));
    assert(t.update(b, s[a]).to_multiset() == t.to_multiset().remove(t[b]).insert(s[a]));
    assert(t[b] == s[b]);
    assert(s.to_multiset().contains(s[a]));
    assert(s.to_multiset().remove(s[a]).insert(s[b]).remove(s[b]) =~= s.to_multiset().remove(s[a]));
    assert(s.to_multiset().remove(s[a]).insert(s[a]) =~= s.to_multiset());
}

/// The sort key of a stone.
pub open spec fn stone_key(s: (i8, i8)) -> int {
    s.0 as int * 15 + s.1 as int
}

/// The sort key of a stone.
fn stone_key_of(s: (i8, i8)) -> (k: i32)
    ensures
        k == stone_key(s),
{
    (s.0 as i32) * 15 + (s.1 as i32)
}

/// The cell (column, row) that symmetry `t` sends cell (x, y) to (the
/// corner (0, 0) for a cell off the board).
pub open spec fn image_cell(x: int, y: int, t: int) -> (i8, i8) {
    let i = transformed_index(x, y, t);
    ((i % 15) as i8, (i / 15) as i8)
}

/// The image cell is the symmetry's image of the cell, for a cell of the
/// board.
proof fn lemma_image_cell(x: int, y: int, t: int)
    requires
        0 <= x < 15,
        0 <= y < 15,
        0 <= t < 8,
    ensures
        image_cell(x, y, t).0 == transform(x, y, t).0,
        image_cell(x, y, t).1 == transform(x, y, t).1,
{
    lemma_transform_on_board(x, y, t);
    let (tx, ty) = transform(x, y, t);
    let i = ty * 15 + tx;
    assert(i % 15 == tx && i / 15 == ty) by (nonlinear_arith)
        requires
            i == ty * 15 + tx,
            0 <= tx < 15,
            0 <= ty < 15,
    ;
}

/// One symmetry moves a board text and a stone together: the text's image
/// lies from the stone's image as many columns and rows away as the text
/// lay from the stone (the two offsets swapped for a symmetry that turns
/// rows into columns), and on the stone's image exactly when it lay on
/// the stone.
pub proof fn lemma_images_keep_offsets(sx: int, sy: int, bx: int, by: int, t: int)
    requires
        0 <= sx < 15,
        0 <= sy < 15,
        0 <= bx < 15,
        0 <= by < 15,
        0 <= t < 8,
    ensures
        ({
            let s2 = image_cell(sx, sy, t);
            let b2 = image_cell(bx, by, t);
            let dx = abs_int(bx - sx);
            let dy = abs_int(by - sy);
            let dx2 = abs_int(b2.0 - s2.0);
            let dy2 = abs_int(b2.1 - s2.1);
            &&& (dx2 == dx && dy2 == dy) || (dx2 == dy && dy2 == dx)
            &&& (b2 == s2 <==> bx == sx && by == sy)
        }),
{
    lemma_image_cell(sx, sy, t);
    lemma_image_cell(bx, by, t);
}

/// The size of an integer.
pub open spec fn abs_int(v: int) -> int {
    if v < 0 {
        -v
    } else {
        v
    }
}

/// The images of stones under symmetry `t`, in the same order.
pub open spec fn image_stones(v: Seq<(i8, i8)>, t: int) -> Seq<(i8, i8)> {
    v.map_values(|s: (i8, i8)| image_cell(s.0 as int, s.1 as int, t))
}

/// The stones as symmetry `t` writes them: as they are for the identity,
/// their images under `t` otherwise.
pub open spec fn stones_seen(v: Seq<(i8, i8)>, t: int) -> Seq<(i8, i8)> {
    if t == 0 {
        v
    } else {
        image_stones(v, t)
    }
}

/// Whether stones are in increasing order of `stone_key`.
pub open spec fn stones_sorted(v: Seq<(i8, i8)>) -> bool {
    forall|i: int, j: int| 0 <= i < j < v.len() ==> stone_key(#[trigger] v[i]) <= stone_key(#[trigger] v[j])
}

/// The stones mapped by symmetry `t`, then sorted.
fn transformed_sorted(v: &Vec<(i8, i8)>, t: usize) -> (r: Vec<(i8, i8)>)
    requires
        t < 8,
    ensures
        r@.len() == v@.len(),
        r@.to_multiset() == image_stones(v@, t as int).to_multiset(),
        stones_sorted(r@),
{
    let mut r: Vec<(i8, i8)> = Vec::new();
    let mut i: usize = 0;
    while i < v.len()
        invariant
            i <= v@.len(),
            r@.len() == i,
            t < 8,
            r@ == image_stones(v@.take(i as int), t as int),
        decreases v@.len() - i,
    {
        let (x, y) = v[i];
        let id = Zobrist::get_transformed_idx(x, y, t);
        r.push(((id % 15) as i8, (id / 15) as i8));
        proof {
            assert(v@.take(i + 1) =~= v@.take(i as int).push(v@[i as int]));
            assert(r@ =~= image_stones(v@.take(i + 1), t as int));
        }
        i += 1;
    }
    proof {
        assert(v@.take(v@.len() as int) =~= v@);
    }
    sort_stones(&mut r);
    r
}

/// The order of two stone lists from place `i` on: the first place where
/// their keys differ decides, and where one list runs out first it is the
/// smaller (-1 less, 0 equal, 1 greater).
spec fn stones_order(a: Seq<(i8, i8)>, b: Seq<(i8, i8)>, i: int) -> int
    decreases a.len() - i,
{
    if i < 0 || i >= a.len() || i >= b.len() {
        if a.len() < b.len() {
            -1
        } else if a.len() > b.len() {
            1
        } else {
            0
        }
    } else if stone_key(a[i]) < stone_key(b[i]) {
        -1
    } else if stone_key(a[i]) > stone_key(b[i]) {
        1
    } else {
        stones_order(a, b, i + 1)
    }
}

/// Compares two sorted stone lists by key, then by length: -1 less, 0
/// equal, 1 greater.
fn compare_stones(a: &Vec<(i8, i8)>, b: &Vec<(i8, i8)>) -> (r: i8)
    ensures
        -1 <= r <= 1,
        r == stones_order(a@, b@, 0),
{
    let n = if a.len() < b.len() { a.len() } else { b.len() };
    let mut i: usize = 0;
    while i < n
        invariant
            i <= n,
            n <= a@.len(),
            n <= b@.len(),
            n == a@.len() || n == b@.len(),
            stones_order(a@, b@, 0) == stones_order(a@, b@, i as int),
        decreases n - i,
    {
        let k1 = stone_key_of(a[i]);
        let k2 = stone_key_of(b[i]);
        if k1 < k2 {
            return -1;
        }
        if k1 > k2 {
            return 1;
        }
        i += 1;
    }
    if a.len() < b.len() {
        -1
    } else if a.len() > b.len() {
        1
    } else {
        0
    }
}

/// The coordinates of a list of stones, laid out flat: x, y of each in turn.
spec fn flat_stones(s: Seq<(i8, i8)>) -> Seq<i8>
    decreases s.len(),
{
    if s.len() == 0 {
        Seq::empty()
    } else {
        flat_stones(s.drop_last()) + seq![s.last().0, s.last().1]
    }
}

/// The flat key of a position: black stones, -1, white stones.
fn map_key_of(black: &Vec<(i8, i8)>, white: &Vec<(i8, i8)>) -> (k: Vec<i8>)
    ensures
        k@ == flat_stones(black@) + seq![-1i8] + flat_stones(white@),
{
    let mut k: Vec<i8> = Vec::new();
    let mut i: usize = 0;
    while i < black.len()
        invariant
            i <= black@.len(),
            k@ == flat_stones(black@.take(i as int)),
        decreases black@.len() - i,
    {
        proof {
            assert(black@.take(i + 1).drop_last() =~= black@.take(i as int));
        }
        k.push(black[i].0);
        k.push(black[i].1);
        i += 1;
    }
    proof {
        assert(black@.take(i as int) =~= black@);
    }
    k.push(-1);
    let ghost front = k@;
    i = 0;
    while i < white.len()
        invariant
            i <= white@.len(),
            front == flat_stones(black@) + seq![-1i8],
            k@ == front + flat_stones(white@.take(i as int)),
        decreases white@.len() - i,
    {
        proof {
            assert(white@.take(i + 1).drop_last() =~= white@.take(i as int));
        }
        k.push(white[i].0);
        k.push(white[i].1);
        i += 1;
        proof {
            assert(k@ =~= front + flat_stones(white@.take(i as int)));
        }
    }
    proof {
        assert(white@.take(i as int) =~= white@);
    }
    k
}

/// Whether two keys are equal.
fn keys_equal(a: &Vec<i8>, b: &Vec<i8>) -> (r: bool)
    ensures
        r == (a@ == b@),
{
    if a.len() != b.len() {
        return false;
    }
    let mut i: usize = 0;
    while i < a.len()
        invariant
            a@.len() == b@.len(),
            i <= a@.len(),
            forall|j: int| 0 <= j < i ==> a@[j] == b@[j],
        decreases a@.len() - i,
    {
        if a[i] != b[i] {
            return false;
        }
        i += 1;
    }
    proof {
        assert(a@ =~= b@);
    }
    true
}

/// A copy of a stone list.
fn copy_stones(v: &Vec<(i8, i8)>) -> (r: Vec<(i8, i8)>)
    ensures
        r@ == v@,
{
    let mut r: Vec<(i8, i8)> = Vec::new();
    let mut i: usize = 0;
    while i < v.len()
        invariant
            i <= v@.len(),
            r@ == v@.take(i as int),
        decreases v@.len() - i,
    {
        r.push(v[i]);
        proof {
            assert(v@.take(i + 1) =~= v@.take(i as int).push(v@[i as int]));
        }
        i += 1;
    }
    proof {
        assert(v@.take(v@.len() as int) =~= v@);
    }
    r
}

/// A copy of a string.
fn copy_string(s: &String) -> (r: String)
    ensures
        r@ == s@,
{
    let mut r = String::new();
    push_str(&mut r, s.as_str());
    r
}

/// The `.db` metadata record written first: an empty key and the data
/// `charset="UTF-8"`.
pub open spec fn db_metadata() -> Seq<u8> {
    seq![3u8, 0u8, 2u8, 0u8, 0u8, 20u8, 0u8, 0u8, 0u8, 0u8, 0u8, 0u8] + seq![
        99u8, 104u8, 97u8, 114u8, 115u8, 101u8, 116u8, 61u8, 34u8, 85u8, 84u8, 70u8, 45u8, 56u8, 34u8,
    ]
}

/// The little-endian bytes of a u32.
pub open spec fn le32(v: u32) -> Seq<u8> {
    seq![(v & 0xFF) as u8, ((v >> 8u32) & 0xFF) as u8, ((v >> 16u32) & 0xFF) as u8, ((v >> 24u32) & 0xFF) as u8]
}

/// Appends the little-endian bytes of a u32.
fn push_le32(buf: &mut Vec<u8>, v: u32)
    ensures
        final(buf)@ == old(buf)@ + le32(v),
{
    buf.push((v & 0xFF) as u8);
    buf.push(((v >> 8) & 0xFF) as u8);
    buf.push(((v >> 16) & 0xFF) as u8);
    buf.push(((v >> 24) & 0xFF) as u8);
    proof {
        assert(buf@ =~= old(buf)@ + le32(v));
    }
}

/// Size of the work left on the depth-first stack of `save_db`: an entry
/// still to enter weighs twice `base` to the power of its fuel, an exit 1.
pub open spec fn dfs_measure(stack: Seq<(usize, bool, usize)>, base: nat) -> nat
    decreases stack.len(),
{
    if stack.len() == 0 {
        0
    } else {
        (if stack.last().1 { 2 * power_of(base, stack.last().2 as nat) } else { 1 }) + dfs_measure(stack.drop_last(), base)
    }
}

/// `b` to the power `e`.
pub open spec fn power_of(b: nat, e: nat) -> nat
    decreases e,
{
    if e == 0 {
        1
    } else {
        b * power_of(b, (e - 1) as nat)
    }
}

proof fn lemma_power_of_pos(b: nat, e: nat)
    requires
        b >= 1,
    ensures
        power_of(b, e) >= 1,
    decreases e,
{
    if e > 0 {
        lemma_power_of_pos(b, (e - 1) as nat);
        assert(b * power_of(b, (e - 1) as nat) >= 1) by (nonlinear_arith)
            requires
                b >= 1,
                power_of(b, (e - 1) as nat) >= 1,
        ;
    }
}

proof fn lemma_dfs_push(stack: Seq<(usize, bool, usize)>, base: nat, e: (usize, bool, usize))
    ensures
        dfs_measure(stack.push(e), base) == (if e.1 { 2 * power_of(base, e.2 as nat) } else { 1 }) + dfs_measure(stack, base),
{
    assert(stack.push(e).drop_last() =~= stack);
}

impl RenLibWriter {
    /// The text `id` of the pool decoded in the writer's encoding, if the
    /// pool holds it.
    fn pool_string(&self, pool: &TextPool, id: u32) -> (r: Option<String>)
        requires
            pool.wf(),
        ensures
            r is Some <==> id < pool.texts().len(),
            r is Some ==> r->0@ == decoded(self.encoding, pool.texts()[id as int]),
    {
        match pool.get(id) {
            Some(b) => Some(decode_text(self.encoding, b)),
            None => None,
        }
    }

    /// The positions along the tree, depth first: for each live node, the
    /// stones of its path (alternately black and white), its label and
    /// evaluation (from a label text), its comment, its depth and the board
    /// texts of its live children.
    fn collect_entries(&self, nodes: &[RenLibNode], node_texts: &[u32], pool: &TextPool) -> (entries: Vec<DbEntry>)
        requires
            pool.wf(),
            links_ok(nodes@),
            nodes@.len() > 0,
            nodes@.len() + 1 < usize::MAX,
        ensures
            forall|q: int| 0 <= q < entries@.len() ==> entry_shaped(#[trigger] entries@[q]),
            nodes@[0].spec_x() == -2 ==> entries@.len() == 0,
            nodes@[0].spec_x() != -2 ==> entries@.len() >= 1 && entry_at_root(entries@[0]),
    {
        let n = nodes.len();
        let base: usize = n + 1;
        let mut entries: Vec<DbEntry> = Vec::new();
        let mut move_stack: Vec<(i8, i8)> = Vec::new();
        let mut stack: Vec<(usize, bool, usize)> = Vec::new();
        stack.push((0, true, n));
        while stack.len() > 0
            invariant
                n == nodes@.len(),
                base == n + 1,
                n > 0,
                pool.wf(),
                links_ok(nodes@),
                forall|q: int| 0 <= q < stack@.len() ==> (#[trigger] stack@[q]).2 <= n,
                forall|q: int| 0 <= q < entries@.len() ==> entry_shaped(#[trigger] entries@[q]),
                forall|q: int| 0 <= q < move_stack@.len() ==> (#[trigger] move_stack@[q]).0 >= 0 && move_stack@[q].1 >= 0,
                nodes@[0].spec_x() == -2 ==> entries@.len() == 0 && (stack@ == seq![(0usize, true, n)] || stack@.len() == 0),
                nodes@[0].spec_x() != -2 && entries@.len() == 0 ==> stack@ == seq![(0usize, true, n)] && move_stack@.len() == 0,
                nodes@[0].spec_x() != -2 && entries@.len() >= 1 ==> entry_at_root(entries@[0]),
            decreases dfs_measure(stack@, base as nat),
        {
            let ghost before = stack@;
            let (idx, entering, fuel) = stack.pop().unwrap();
            let ghost rest = stack@;
            proof {
                assert(before =~= rest.push((idx, entering, fuel)));
                lemma_dfs_push(rest, base as nat, (idx, entering, fuel));
                lemma_power_of_pos(base as nat, fuel as nat);
            }
            if idx >= n {
                continue;
            }
            let node = nodes[idx];
            if node.x() == -2 {
                continue;
            }
            if !entering {
                if idx != 0 && node.x() >= 0 && node.y() >= 0 {
                    move_stack.pop();
                }
                continue;
            }
            if fuel == 0 {
                continue;
            }
            if idx != 0 && node.x() >= 0 && node.y() >= 0 {
                move_stack.push((node.x(), node.y()));
            }
            let mut black: Vec<(i8, i8)> = Vec::new();
            let mut white: Vec<(i8, i8)> = Vec::new();
            let mut i: usize = 0;
            while i < move_stack.len()
                invariant
                    i <= move_stack@.len(),
                    black@.len() == (i + 1) / 2,
                    white@.len() == i / 2,
                    forall|q: int| 0 <= q < move_stack@.len() ==> (#[trigger] move_stack@[q]).0 >= 0 && move_stack@[q].1 >= 0,
                    forall|q: int| 0 <= q < black@.len() ==> (#[trigger] black@[q]).0 >= 0 && black@[q].1 >= 0,
                    forall|q: int| 0 <= q < white@.len() ==> (#[trigger] white@[q]).0 >= 0 && white@[q].1 >= 0,
                decreases move_stack@.len() - i,
            {
                if i % 2 == 0 {
                    black.push(move_stack[i]);
                } else {
                    white.push(move_stack[i]);
                }
                i += 1;
            }
            let depth = move_stack.len() as u8;
            let mut node_text_str: Option<String> = None;
            let mut node_comment_str: Option<String> = None;
            if idx < node_texts.len() {
                let texts = node_texts[idx];
                let tid = (texts >> 16) & 0xFFFF;
                if tid != 0xFFFF {
                    node_text_str = self.pool_string(pool, tid);
                }
                let cid = texts & 0xFFFF;
                if cid != 0xFFFF {
                    node_comment_str = self.pool_string(pool, cid);
                }
            }
            let (label, value) = match &node_text_str {
                Some(t) => {
                    if is_label_value_text(t.as_str()) {
                        text_to_label_value(t.as_str(), depth as usize)
                    } else {
                        (0, 0)
                    }
                },
                None => (0, 0),
            };
            let comment = match node_comment_str {
                Some(c) => c,
                None => String::new(),
            };
            let mut children: Vec<usize> = Vec::new();
            let mut c = node.child;
            let mut steps: usize = n;
            while c != NO_NODE && steps > 0
                invariant
                    n == nodes@.len(),
                    links_ok(nodes@),
                    c == NO_NODE || c < n,
                    children@.len() + steps <= n,
                    forall|q: int| 0 <= q < children@.len() ==> #[trigger] children@[q] < n,
                decreases steps,
            {
                if nodes[c as usize].x() != -2 {
                    children.push(c as usize);
                }
                c = nodes[c as usize].sibling;
                steps -= 1;
            }
            let mut btxt_list: Vec<(i8, i8, String)> = Vec::new();
            let mut q: usize = 0;
            while q < children.len()
                invariant
                    n == nodes@.len(),
                    pool.wf(),
                    forall|r: int| 0 <= r < children@.len() ==> #[trigger] children@[r] < n,
                    forall|r: int| 0 <= r < btxt_list@.len() ==> !is_label_value((#[trigger] btxt_list@[r]).2@)
                        && btxt_list@[r].0 >= 0 && btxt_list@[r].1 >= 0,
                decreases children@.len() - q,
            {
                let c_idx = children[q];
                if c_idx < node_texts.len() {
                    let tid = (node_texts[c_idx] >> 16) & 0xFFFF;
                    if tid != 0xFFFF {
                        match self.pool_string(pool, tid) {
                            Some(text) => {
                                if !is_label_value_text(text.as_str()) {
                                    if nodes[c_idx].x() >= 0 && nodes[c_idx].y() >= 0 {
                                        btxt_list.push((nodes[c_idx].x(), nodes[c_idx].y(), text));
                                    }
                                }
                            },
                            None => {},
                        }
                    }
                }
                q += 1;
            }
            entries.push(DbEntry {
                black_stones: black,
                white_stones: white,
                label,
                value,
                comment,
                depth,
                btxt_list,
            });
            let ghost mid0 = stack@;
            stack.push((idx, false, fuel));
            proof {
                lemma_dfs_push(mid0, base as nat, (idx, false, fuel));
                assert(power_of(base as nat, fuel as nat) == base * power_of(base as nat, (fuel - 1) as nat));
                lemma_power_of_pos(base as nat, (fuel - 1) as nat);
            }
            let mut k = children.len();
            while k > 0
                invariant
                    k <= children@.len(),
                    children@.len() <= n,
                    n == nodes@.len(),
                    base == n + 1,
                    0 < fuel <= n,
                    stack@.len() >= rest.len() + 1,
                    forall|r: int| 0 <= r < children@.len() ==> #[trigger] children@[r] < n,
                    forall|r: int| 0 <= r < stack@.len() ==> (#[trigger] stack@[r]).2 <= n,
                    dfs_measure(stack@, base as nat) == dfs_measure(rest, base as nat) + 1 + (children@.len() - k) * (2
                        * power_of(base as nat, (fuel - 1) as nat)),
                decreases k,
            {
                k -= 1;
                let ghost s0 = stack@;
                stack.push((children[k], true, fuel - 1));
                proof {
                    lemma_dfs_push(s0, base as nat, (children@[k as int], true, (fuel - 1) as usize));
                    assert((children@.len() - k) * (2 * power_of(base as nat, (fuel - 1) as nat)) == (children@.len() - (k
                        + 1)) * (2 * power_of(base as nat, (fuel - 1) as nat)) + 2 * power_of(base as nat, (fuel - 1) as nat))
                        by (nonlinear_arith);
                }
            }
            proof {
                let p = power_of(base as nat, (fuel - 1) as nat);
                assert(children@.len() * (2 * p) + 1 < 2 * (base * p)) by (nonlinear_arith)
                    requires
                        children@.len() <= n,
                        base == n + 1,
                        p >= 1,
                ;
            }
        }
        entries
    }
}

/// A comment joined to the one already held: on a line of its own where
/// one is held; nothing changes for an empty comment.
spec fn joined_comment(held: Seq<char>, added: Seq<char>) -> Seq<char> {
    if added.len() == 0 {
        held
    } else if held.len() > 0 {
        held.push('\n') + added
    } else {
        added
    }
}

/// Board texts with their strings taken by value.
spec fn texts_view(l: Seq<(i8, i8, String)>) -> Seq<(i8, i8, Seq<char>)>
    decreases l.len(),
{
    if l.len() == 0 {
        Seq::empty()
    } else {
        texts_view(l.drop_last()).push((l.last().0, l.last().1, l.last().2@))
    }
}

proof fn lemma_texts_view(l: Seq<(i8, i8, String)>)
    ensures
        texts_view(l).len() == l.len(),
        forall|q: int| 0 <= q < l.len() ==> #[trigger] texts_view(l)[q] == (l[q].0, l[q].1, l[q].2@),
    decreases l.len(),
{
    if l.len() > 0 {
        lemma_texts_view(l.drop_last());
    }
}

proof fn lemma_texts_view_ext(a: Seq<(i8, i8, String)>, b: Seq<(i8, i8, Seq<char>)>)
    requires
        a.len() == b.len(),
        forall|q: int| 0 <= q < a.len() ==> (#[trigger] b[q]) == (a[q].0, a[q].1, a[q].2@),
    ensures
        texts_view(a) == b,
{
    lemma_texts_view(a);
    assert(texts_view(a) =~= b);
}

/// A board text put into a list: it takes the place of the first on its
/// cell, or comes last where none is.
spec fn put_text(l: Seq<(i8, i8, Seq<char>)>, e: (i8, i8, Seq<char>)) -> Seq<(i8, i8, Seq<char>)>
    decreases l.len(),
{
    if l.len() == 0 {
        seq![e]
    } else if l[0].0 == e.0 && l[0].1 == e.1 {
        l.update(0, e)
    } else {
        seq![l[0]] + put_text(l.drop_first(), e)
    }
}

/// Board texts put into a list one after another.
spec fn put_texts(l: Seq<(i8, i8, Seq<char>)>, new: Seq<(i8, i8, Seq<char>)>) -> Seq<(i8, i8, Seq<char>)>
    decreases new.len(),
{
    if new.len() == 0 {
        l
    } else {
        put_text(put_texts(l, new.drop_last()), new.last())
    }
}

proof fn lemma_put_text_at(l: Seq<(i8, i8, Seq<char>)>, e: (i8, i8, Seq<char>), k: int)
    requires
        0 <= k <= l.len(),
        forall|q: int| 0 <= q < k ==> !((#[trigger] l[q]).0 == e.0 && l[q].1 == e.1),
        k < l.len() ==> l[k].0 == e.0 && l[k].1 == e.1,
    ensures
        put_text(l, e) == (if k < l.len() { l.update(k, e) } else { l.push(e) }),
    decreases l.len(),
{
    if l.len() == 0 {
        assert(l.push(e) =~= seq![e]);
    } else if k == 0 {
    } else {
        let t = l.drop_first();
        assert forall|q: int| 0 <= q < k - 1 implies !((#[trigger] t[q]).0 == e.0 && t[q].1 == e.1) by {
            assert(t[q] == l[q + 1]);
        }
        assert(!(l[0].0 == e.0 && l[0].1 == e.1));
        lemma_put_text_at(t, e, k - 1);
        if k < l.len() {
            assert(seq![l[0]] + t.update(k - 1, e) =~= l.update(k, e));
        } else {
            assert(seq![l[0]] + t.push(e) =~= l.push(e));
        }
    }
}

/// The records of the first `r` positions of a table, one after another.
spec fn table_records(t: DbTable, r: int) -> Seq<u8>
    decreases r,
{
    if r <= 0 {
        Seq::empty()
    } else {
        table_records(t, r - 1) + db_record(t.black@[r - 1]@, t.white@[r - 1]@, t.label@[r - 1], t.value@[r - 1],
            t.btxt@[r - 1]@, t.comment@[r - 1]@)
    }
}

/// `out` has the layout of a database file: the number of records (the
/// metadata record counted), the metadata record, then one record for each
/// position of some table of positions; with `root_first`, the first
/// position is the empty board. It does not say which positions the table
/// holds.
pub closed spec fn db_layout(out: Seq<u8>, root_first: bool) -> bool {
    exists|t: DbTable|
        #![trigger t.keys]
        t.wf() && out == le32((t.keys@.len() as u32).wrapping_add(1)) + db_metadata() + table_records(t, t.keys@.len() as int) && (
        root_first ==> t.keys@.len() >= 1 && t.black@[0]@.len() == 0 && t.white@[0]@.len() == 0)
}

/// The merged positions of a database, in parallel lists.
struct DbTable {
    keys: Vec<Vec<i8>>,
    black: Vec<Vec<(i8, i8)>>,
    white: Vec<Vec<(i8, i8)>>,
    label: Vec<u8>,
    value: Vec<i16>,
    comment: Vec<String>,
    btxt: Vec<Vec<(i8, i8, String)>>,
    buckets: FxHashMap<u64, Vec<usize>>,
}

impl DbTable {
    spec fn wf(&self) -> bool {
        &&& self.black@.len() == self.keys@.len()
        &&& self.white@.len() == self.keys@.len()
        &&& self.label@.len() == self.keys@.len()
        &&& self.value@.len() == self.keys@.len()
        &&& self.comment@.len() == self.keys@.len()
        &&& self.btxt@.len() == self.keys@.len()
    }

    /// The position of `key`, added (empty, with the given stones) when new.
    fn slot(&mut self, key: Vec<i8>, black: Vec<(i8, i8)>, white: Vec<(i8, i8)>) -> (pos: usize)
        requires
            old(self).wf(),
        ensures
            final(self).wf(),
            pos < final(self).keys@.len(),
            final(self).keys@[pos as int]@ == key@,
            final(self).keys@.len() == old(self).keys@.len() || (final(self).keys@.len() == old(self).keys@.len() + 1
                && final(self).keys@ == old(self).keys@.push(key)),
            forall|i: int| 0 <= i < old(self).keys@.len() ==> final(self).keys@[i] == old(self).keys@[i],
            final(self).keys@.len() == old(self).keys@.len() ==> final(self).black == old(self).black && final(self).white
                == old(self).white,
            final(self).keys@.len() == old(self).keys@.len() + 1 ==> final(self).black@ == old(self).black@.push(black)
                && final(self).white@ == old(self).white@.push(white),
    {
        let h = key_hash(&key);
        let found = bucket_map_get(&self.buckets, h);
        let mut bucket: Vec<usize> = match found {
            Some(b) => b,
            None => Vec::new(),
        };
        let mut i: usize = 0;
        while i < bucket.len()
            invariant
                self.wf(),
                self.keys == old(self).keys,
                self.black == old(self).black,
                self.white == old(self).white,
                i <= bucket@.len(),
            decreases bucket@.len() - i,
        {
            let idx = bucket[i];
            if idx < self.keys.len() && keys_equal(&self.keys[idx], &key) {
                return idx;
            }
            i += 1;
        }
        let pos = self.keys.len();
        bucket.push(pos);
        bucket_map_insert(&mut self.buckets, h, bucket);
        self.keys.push(key);
        self.black.push(black);
        self.white.push(white);
        self.label.push(0);
        self.value.push(0);
        self.comment.push(String::new());
        self.btxt.push(Vec::new());
        pos
    }

    /// Adds a position's label, evaluation, comment and board texts to slot
    /// `pos`: a nonzero label or evaluation replaces the slot's, comments
    /// join with a line break, and a board text replaces the one on its cell.
    fn merge(&mut self, pos: usize, label: u8, value: i16, comment: &String, btxt: &Vec<(i8, i8, String)>)
        requires
            old(self).wf(),
            pos < old(self).keys@.len(),
        ensures
            final(self).wf(),
            final(self).keys == old(self).keys,
            final(self).black == old(self).black,
            final(self).white == old(self).white,
            final(self).label@ == (if label != 0 || value != 0 { old(self).label@.update(pos as int, label) } else { old(self).label@ }),
            final(self).value@ == (if label != 0 || value != 0 { old(self).value@.update(pos as int, value) } else { old(self).value@ }),
            forall|i: int| 0 <= i < final(self).comment@.len() && i != pos ==> #[trigger] final(self).comment@[i] == old(self).comment@[i],
            final(self).comment@[pos as int]@ == joined_comment(old(self).comment@[pos as int]@, comment@),
            forall|i: int| 0 <= i < final(self).btxt@.len() && i != pos ==> #[trigger] final(self).btxt@[i] == old(self).btxt@[i],
            texts_view(final(self).btxt@[pos as int]@) == put_texts(texts_view(old(self).btxt@[pos as int]@), texts_view(btxt@)),
    {
        if label != 0 || value != 0 {
            self.label.set(pos, label);
            self.value.set(pos, value);
        }
        if comment.as_str().unicode_len() > 0 {
            let mut c = copy_string(&self.comment[pos]);
            if self.comment[pos].as_str().unicode_len() > 0 {
                push_char(&mut c, '\n');
            }
            push_str(&mut c, comment.as_str());
            self.comment.set(pos, c);
        }
        let ghost src = self.btxt@[pos as int]@;
        let ghost base = texts_view(src);
        proof {
            lemma_texts_view(src);
        }
        let mut list: Vec<(i8, i8, String)> = Vec::new();
        let mut i: usize = 0;
        while i < self.btxt[pos].len()
            invariant
                self.wf(),
                self.keys == old(self).keys,
                pos < self.keys@.len(),
                src == self.btxt@[pos as int]@,
                i <= src.len(),
                list@.len() == i,
                forall|q: int| 0 <= q < i ==> (#[trigger] list@[q]).0 == src[q].0 && list@[q].1 == src[q].1 && list@[q].2@ == src[q].2@,
            decreases self.btxt@[pos as int]@.len() - i,
        {
            let entry = &self.btxt[pos][i];
            let copied = copy_string(&entry.2);
            list.push((entry.0, entry.1, copied));
            i += 1;
        }
        proof {
            lemma_texts_view_ext(list@, base);
        }
        let ghost incoming = texts_view(btxt@);
        proof {
            lemma_texts_view(btxt@);
        }
        let mut j: usize = 0;
        while j < btxt.len()
            invariant
                j <= btxt@.len(),
                incoming == texts_view(btxt@),
                incoming.len() == btxt@.len(),
                forall|q: int| 0 <= q < btxt@.len() ==> #[trigger] incoming[q] == (btxt@[q].0, btxt@[q].1, btxt@[q].2@),
                texts_view(list@) == put_texts(base, incoming.take(j as int)),
            decreases btxt@.len() - j,
        {
            let item = &btxt[j];
            let bx = item.0;
            let by = item.1;
            let ghost e = incoming[j as int];
            proof {
                assert(incoming.take(j + 1).drop_last() =~= incoming.take(j as int));
                assert(incoming.take(j + 1).last() == e);
                lemma_texts_view(list@);
            }
            let ghost l0 = texts_view(list@);
            let ghost list0 = list@;
            let mut k: usize = 0;
            while k < list.len() && !(list[k].0 == bx && list[k].1 == by)
                invariant
                    k <= list@.len(),
                    list@ == list0,
                    l0 == texts_view(list0),
                    l0.len() == list0.len(),
                    forall|q: int| 0 <= q < list0.len() ==> #[trigger] l0[q] == (list0[q].0, list0[q].1, list0[q].2@),
                    e.0 == bx && e.1 == by,
                    forall|q: int| 0 <= q < k ==> !((#[trigger] l0[q]).0 == e.0 && l0[q].1 == e.1),
                decreases list@.len() - k,
            {
                proof {
                    assert(l0[k as int] == (list0[k as int].0, list0[k as int].1, list0[k as int].2@));
                }
                k += 1;
            }
            proof {
                if k < list0.len() {
                    assert(l0[k as int] == (list0[k as int].0, list0[k as int].1, list0[k as int].2@));
                }
                lemma_put_text_at(l0, e, k as int);
            }
            let copied = copy_string(&item.2);
            if k < list.len() {
                list.set(k, (bx, by, copied));
                proof {
                    assert forall|q: int| 0 <= q < list@.len() implies (#[trigger] l0.update(k as int, e)[q]) == (list@[q].0, list@[q].1, list@[q].2@) by {
                        if q != k {
                            assert(l0[q] == (list0[q].0, list0[q].1, list0[q].2@));
                        }
                    }
                    lemma_texts_view_ext(list@, l0.update(k as int, e));
                }
            } else {
                list.push((bx, by, copied));
                proof {
                    assert forall|q: int| 0 <= q < list@.len() implies (#[trigger] l0.push(e)[q]) == (list@[q].0, list@[q].1, list@[q].2@) by {
                        if q < k {
                            assert(l0[q] == (list0[q].0, list0[q].1, list0[q].2@));
                        }
                    }
                    lemma_texts_view_ext(list@, l0.push(e));
                }
            }
            j += 1;
        }
        proof {
            assert(incoming.take(j as int) =~= incoming);
        }
        self.btxt.set(pos, list);
    }
}

/// The form a position is written in: its black and white stones seen
/// through the symmetry that makes them least (each list sorted), that
/// symmetry, and its board texts moved by the same symmetry, each to the
/// image of its cell.
fn canonical_form(entry: &DbEntry) -> (r: (Vec<(i8, i8)>, Vec<(i8, i8)>, usize, Vec<(i8, i8, String)>))
    ensures
        r.2 < 8,
        r.0@.len() == entry.black_stones@.len(),
        r.1@.len() == entry.white_stones@.len(),
        r.0@.to_multiset() == stones_seen(entry.black_stones@, r.2 as int).to_multiset(),
        r.1@.to_multiset() == stones_seen(entry.white_stones@, r.2 as int).to_multiset(),
        stones_sorted(r.0@),
        stones_sorted(r.1@),
        r.3@.len() == entry.btxt_list@.len(),
        forall|q: int| 0 <= q < r.3@.len() ==> {
            let (bx, by, ref txt) = entry.btxt_list@[q];
            &&& (#[trigger] r.3@[q]).0 == image_cell(bx as int, by as int, r.2 as int).0
            &&& r.3@[q].1 == image_cell(bx as int, by as int, r.2 as int).1
            &&& r.3@[q].2@ == txt@
        },
{
    let mut best_b = copy_stones(&entry.black_stones);
    let mut best_w = copy_stones(&entry.white_stones);
    sort_stones(&mut best_b);
    sort_stones(&mut best_w);
    let mut best_t: usize = 0;
    let mut t: usize = 1;
    while t < 8
        invariant
            1 <= t <= 8,
            best_t < 8,
            best_b@.len() == entry.black_stones@.len(),
            best_w@.len() == entry.white_stones@.len(),
            best_b@.to_multiset() == stones_seen(entry.black_stones@, best_t as int).to_multiset(),
            best_w@.to_multiset() == stones_seen(entry.white_stones@, best_t as int).to_multiset(),
            stones_sorted(best_b@),
            stones_sorted(best_w@),
        decreases 8 - t,
    {
        let tb = transformed_sorted(&entry.black_stones, t);
        let tw = transformed_sorted(&entry.white_stones, t);
        let cb = compare_stones(&tb, &best_b);
        let is_less = cb < 0 || (cb == 0 && compare_stones(&tw, &best_w) < 0);
        if is_less {
            best_b = tb;
            best_w = tw;
            best_t = t;
        }
        t += 1;
    }
    let mut c_btxt: Vec<(i8, i8, String)> = Vec::new();
    let mut q: usize = 0;
    while q < entry.btxt_list.len()
        invariant
            best_t < 8,
            q <= entry.btxt_list@.len(),
            c_btxt@.len() == q,
            forall|k: int| 0 <= k < q ==> {
                let (bx, by, ref txt) = entry.btxt_list@[k];
                &&& (#[trigger] c_btxt@[k]).0 == image_cell(bx as int, by as int, best_t as int).0
                &&& c_btxt@[k].1 == image_cell(bx as int, by as int, best_t as int).1
                &&& c_btxt@[k].2@ == txt@
            },
        decreases entry.btxt_list@.len() - q,
    {
        let (bx, by, ref txt) = entry.btxt_list[q];
        let id = Zobrist::get_transformed_idx(bx, by, best_t);
        c_btxt.push(((id % 15) as i8, (id / 15) as i8, copy_string(txt)));
        q += 1;
    }
    (best_b, best_w, best_t, c_btxt)
}

impl RenLibWriter {
    /// The nodes as a `.db` database: the record count, a metadata record
    /// (`charset="UTF-8"`), then one record per position, positions equal
    /// under the board's symmetries merged (their stones written in the
    /// least of the eight forms), in the order in which the depth-first walk
    /// first reaches them. Each record: the stones, then the label, the evaluation, a depth
    /// bound and the texts (board texts after `@BTXT@`, then the comment).
    /// No nodes give just a zero count.
    pub fn save_db(&mut self, nodes: &[RenLibNode], node_texts: &[u32], pool: &TextPool) -> (out: Vec<u8>)
        requires
            pool.wf(),
            links_ok(nodes@),
            nodes@.len() + 1 < usize::MAX,
        ensures
            final(self).buffer@ == out@,
            final(self).encoding == old(self).encoding,
            nodes@.len() == 0 ==> out@ == le32(0),
            nodes@.len() > 0 ==> out@.len() >= 31 && out@.subrange(4, 31) == db_metadata(),
            nodes@.len() > 0 ==> db_layout(out@, nodes@[0].spec_x() != -2),
    {
        self.buffer.clear();
        if nodes.len() == 0 {
            push_le32(&mut self.buffer, 0);
            proof {
                assert(self.buffer@ =~= le32(0));
            }
            return self.copy_buffer();
        }
        let entries = self.collect_entries(nodes, node_texts, pool);
        let mut table = DbTable {
            keys: Vec::new(),
            black: Vec::new(),
            white: Vec::new(),
            label: Vec::new(),
            value: Vec::new(),
            comment: Vec::new(),
            btxt: Vec::new(),
            buckets: bucket_map_new(),
        };
        let ghost root_first = nodes@[0].spec_x() != -2;
        let mut e: usize = 0;
        while e < entries.len()
            invariant
                table.wf(),
                table.keys@.len() <= e,
                root_first == (nodes@[0].spec_x() != -2),
                root_first ==> entries@.len() >= 1 && entry_at_root(entries@[0]),
                root_first && e >= 1 ==> table.keys@.len() >= 1 && table.black@[0]@.len() == 0 && table.white@[0]@.len() == 0,
            decreases entries@.len() - e,
        {
            let entry = &entries[e];
            let (best_b, best_w, best_t, c_btxt) = canonical_form(entry);
            let map_key = map_key_of(&best_b, &best_w);
            let ghost was_empty = table.keys@.len() == 0;
            let ghost bb = best_b@;
            let ghost bw = best_w@;
            let pos = table.slot(map_key, best_b, best_w);
            proof {
                if was_empty {
                    assert(table.black@[0]@ == bb && table.white@[0]@ == bw);
                }
            }
            table.merge(pos, entry.label, entry.value, &entry.comment, &c_btxt);
            e += 1;
        }
        let num_records: u32 = (table.keys.len() as u32).wrapping_add(1);
        let ghost b_start = self.buffer@;
        push_le32(&mut self.buffer, num_records);
        let ghost head = self.buffer@;
        self.buffer.push(3);
        self.buffer.push(0);
        self.buffer.push(2);
        self.buffer.push(0);
        self.buffer.push(0);
        self.buffer.push(20);
        self.buffer.push(0);
        let mut z: usize = 0;
        while z < 5
            invariant
                z <= 5,
                self.buffer@ == head + seq![3u8, 0u8, 2u8, 0u8, 0u8, 20u8, 0u8] + Seq::new(z as nat, |i: int| 0u8),
                self.encoding == old(self).encoding,
            decreases 5 - z,
        {
            self.buffer.push(0);
            proof {
                assert(Seq::new((z + 1) as nat, |i: int| 0u8) =~= Seq::new(z as nat, |i: int| 0u8).push(0u8));
            }
            z += 1;
        }
        push_str_bytes(&mut self.buffer, "charset=\"UTF-8\"");
        proof {
            reveal_strlit("charset=\"UTF-8\"");
            assert(utf8("charset=\"UTF-8\""@) =~= seq![
                99u8, 104u8, 97u8, 114u8, 115u8, 101u8, 116u8, 61u8, 34u8, 85u8, 84u8, 70u8, 45u8, 56u8, 34u8,
            ]) by {
                reveal_with_fuel(utf8, 16);
            }
            assert(self.buffer@.subrange(4, 31) =~= db_metadata());
        }
        let ghost prefix = self.buffer@;
        proof {
            assert(prefix =~= le32(num_records) + db_metadata());
        }
        let mut r: usize = 0;
        while r < table.keys.len()
            invariant
                table.wf(),
                self.buffer@.len() >= 31,
                self.buffer@.subrange(0, 31) == prefix.subrange(0, 31),
                prefix.subrange(4, 31) == db_metadata(),
                prefix == le32(num_records) + db_metadata(),
                self.buffer@ == prefix + table_records(table, r as int),
                r <= table.keys@.len(),
                self.encoding == old(self).encoding,
            decreases table.keys@.len() - r,
        {
            let ghost b0 = self.buffer@;
            self.write_db_record(&table, r);
            proof {
                assert(self.buffer@.subrange(0, 31) =~= b0.subrange(0, 31));
                assert(self.buffer@ =~= prefix + table_records(table, r + 1));
            }
            r += 1;
        }
        proof {
            assert(db_layout(self.buffer@, root_first));
        }
        proof {
            assert(self.buffer@.subrange(4, 31) =~= self.buffer@.subrange(0, 31).subrange(4, 31));
            assert(prefix.subrange(4, 31) =~= prefix.subrange(0, 31).subrange(4, 31));
        }
        self.copy_buffer()
    }

    /// Appends the record of slot `j`.
    #[verifier::rlimit(40)]
    fn write_db_record(&mut self, table: &DbTable, j: usize)
        requires
            table.wf(),
            j < table.keys@.len(),
        ensures
            final(self).buffer@.len() >= old(self).buffer@.len(),
            final(self).buffer@.subrange(0, old(self).buffer@.len() as int) == old(self).buffer@,
            final(self).buffer@ == old(self).buffer@ + db_record(table.black@[j as int]@, table.white@[j as int]@,
                table.label@[j as int], table.value@[j as int], table.btxt@[j as int]@, table.comment@[j as int]@),
            final(self).encoding == old(self).encoding,
    {
        let ghost b0 = self.buffer@;
        let black = &table.black[j];
        let white = &table.white[j];
        let num_stones: u16 = (black.len() as u16).wrapping_add(white.len() as u16);
        let num_key_bytes: u16 = 3u16.wrapping_add(num_stones.wrapping_mul(2));
        write_u16_le(&mut self.buffer, num_key_bytes);
        self.buffer.push(2);
        self.buffer.push(15);
        self.buffer.push(15);
        let ghost b_head = self.buffer@;
        let mut i: usize = 0;
        while i < black.len()
            invariant
                i <= black@.len(),
                self.buffer@ == b_head + stone_bytes(black@.take(i as int)),
                self.encoding == old(self).encoding,
            decreases black@.len() - i,
        {
            proof {
                assert(black@.take(i + 1).drop_last() =~= black@.take(i as int));
            }
            self.buffer.push(black[i].0 as u8);
            self.buffer.push(black[i].1 as u8);
            i += 1;
            proof {
                assert(self.buffer@ =~= b_head + stone_bytes(black@.take(i as int)));
            }
        }
        proof {
            assert(black@.take(i as int) =~= black@);
        }
        let ghost b_black = self.buffer@;
        i = 0;
        while i < white.len()
            invariant
                i <= white@.len(),
                self.buffer@ == b_black + stone_bytes(white@.take(i as int)),
                self.encoding == old(self).encoding,
            decreases white@.len() - i,
        {
            proof {
                assert(white@.take(i + 1).drop_last() =~= white@.take(i as int));
            }
            self.buffer.push(white[i].0 as u8);
            self.buffer.push(white[i].1 as u8);
            i += 1;
            proof {
                assert(self.buffer@ =~= b_black + stone_bytes(white@.take(i as int)));
            }
        }
        proof {
            assert(white@.take(i as int) =~= white@);
        }
        let ghost b_stones = self.buffer@;
        let btxt = &table.btxt[j];
        let comment = &table.comment[j];
        let text_field = record_text_of(btxt, comment);
        let label = table.label[j];
        let value = table.value[j];
        let has_data = label != 0 || value != 0 || text_field.len() > 0;
        if has_data {
            let num_record_bytes: u16 = 5u16.wrapping_add(text_field.len() as u16);
            write_u16_le(&mut self.buffer, num_record_bytes);
            self.buffer.push(label);
            write_i16_le(&mut self.buffer, value);
            let depthbound: u16 = if value != 0 { 3 } else { 0 };
            write_u16_le(&mut self.buffer, depthbound);
            self.buffer.extend_from_slice(text_field.as_slice());
        } else {
            write_u16_le(&mut self.buffer, 0);
        }
        proof {
            assert(self.buffer@ =~= b0 + db_record(black@, white@, label, value, btxt@, comment@));
            assert(self.buffer@.subrange(0, b0.len() as int) =~= b0);
        }
    }
}

/// Appends the UTF-8 bytes of `s`.
fn push_str_bytes(buf: &mut Vec<u8>, s: &str)
    ensures
        final(buf)@ == old(buf)@ + utf8(s@),
{
    push_utf8(buf, s);
}

} // verus!
