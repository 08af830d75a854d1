use vstd::prelude::*;
use vstd::slice::slice_subrange;
use rustc_hash::{FxBuildHasher, FxHashMap, FxHasher};
use std::hash::{Hash, Hasher};

verus! {

/// Index that stands for "no node".
pub const NO_NODE: u32 = 0xFFFF_FFFF;

/// Identifier that stands for "no text".
pub const NO_TEXT: u32 = 0xFFFF_FFFF;

/// Flag bit of a `.lib` record: the node carries a board text.
pub const MASK_TEXT: u8 = 0x01;

/// Flag bit of a `.lib` record: the node carries a comment.
pub const MASK_COMMENT: u8 = 0x08;

/// Flag bit of a `.lib` record: a sibling record follows the subtree.
pub const MASK_SIBLING: u8 = 0x80;

/// Flag bit of a `.lib` record: the node has no child.
pub const MASK_NOCHILD: u8 = 0x40;

/// A node of the position tree: hash of the position, links to parent, first
/// child and next sibling, and the move packed in `move_info`
/// (x in bits 0..8, y in bits 8..16, depth in bits 16..24).
#[derive(Debug, Clone, Copy)]
pub struct RenLibNode {
    pub hash: u64,
    pub parent: u32,
    pub child: u32,
    pub sibling: u32,
    pub move_info: u32,
}

/// The x coordinate stored in a packed move.
pub open spec fn info_x(info: u32) -> i8 {
    (info & 0xFF) as u8 as i8
}

/// The y coordinate stored in a packed move.
pub open spec fn info_y(info: u32) -> i8 {
    ((info >> 8) & 0xFF) as u8 as i8
}

/// The depth stored in a packed move.
pub open spec fn info_depth(info: u32) -> u8 {
    ((info >> 16) & 0xFF) as u8
}

/// The reserved top byte of a packed move.
pub open spec fn info_rest(info: u32) -> u32 {
    info >> 24
}

impl RenLibNode {
    pub open spec fn spec_x(&self) -> i8 {
        info_x(self.move_info)
    }

    pub open spec fn spec_y(&self) -> i8 {
        info_y(self.move_info)
    }

    pub open spec fn spec_depth(&self) -> u8 {
        info_depth(self.move_info)
    }

    /// A node with the given move, links, hash and depth.
    pub fn new(x: i8, y: i8, parent: u32, child: u32, sibling: u32, hash: u64, depth: u8) -> (n: Self)
        ensures
            n.spec_x() == x,
            n.spec_y() == y,
            n.spec_depth() == depth,
            info_rest(n.move_info) == 0,
            n.parent == parent,
            n.child == child,
            n.sibling == sibling,
            n.hash == hash,
    {
        let ux = x as u8 as u32;
        let uy = y as u8 as u32;
        let ud = depth as u32;
        let move_info = ux | (uy << 8) | (ud << 16);
        assert(info_x(move_info) == x && info_y(move_info) == y && info_depth(move_info) == depth
            && info_rest(move_info) == 0) by (bit_vector)
            requires
                ux == x as u8 as u32,
                uy == y as u8 as u32,
                ud == depth as u32,
                move_info == ux | (uy << 8) | (ud << 16),
        ;
        RenLibNode { hash, parent, child, sibling, move_info }
    }

    pub fn x(&self) -> (r: i8)
        ensures
            r == self.spec_x(),
    {
        (self.move_info & 0xFF) as u8 as i8
    }

    pub fn y(&self) -> (r: i8)
        ensures
            r == self.spec_y(),
    {
        ((self.move_info >> 8) & 0xFF) as u8 as i8
    }

    pub fn depth(&self) -> (r: u8)
        ensures
            r == self.spec_depth(),
    {
        ((self.move_info >> 16) & 0xFF) as u8
    }

    /// Replaces the x coordinate and keeps everything else.
    pub fn set_x(&mut self, x: i8)
        ensures
            final(self).spec_x() == x,
            final(self).spec_y() == old(self).spec_y(),
            final(self).spec_depth() == old(self).spec_depth(),
            info_rest(final(self).move_info) == info_rest(old(self).move_info),
            final(self).hash == old(self).hash,
            final(self).parent == old(self).parent,
            final(self).child == old(self).child,
            final(self).sibling == old(self).sibling,
    {
        let old_info = self.move_info;
        let ux = x as u8 as u32;
        let info = (old_info & 0xFFFFFF00) | ux;
        assert(info_x(info) == x && info_y(info) == info_y(old_info) && info_depth(info) == info_depth(
            old_info,
        ) && info_rest(info) == info_rest(old_info)) by (bit_vector)
            requires
                ux == x as u8 as u32,
                info == (old_info & 0xFFFFFF00) | ux,
        ;
        self.move_info = info;
    }

    /// Replaces the y coordinate and keeps everything else.
    pub fn set_y(&mut self, y: i8)
        ensures
            final(self).spec_y() == y,
            final(self).spec_x() == old(self).spec_x(),
            final(self).spec_depth() == old(self).spec_depth(),
            info_rest(final(self).move_info) == info_rest(old(self).move_info),
            final(self).hash == old(self).hash,
            final(self).parent == old(self).parent,
            final(self).child == old(self).child,
            final(self).sibling == old(self).sibling,
    {
        let old_info = self.move_info;
        let uy = y as u8 as u32;
        let info = (old_info & 0xFFFF00FF) | (uy << 8);
        assert(info_y(info) == y && info_x(info) == info_x(old_info) && info_depth(info) == info_depth(
            old_info,
        ) && info_rest(info) == info_rest(old_info)) by (bit_vector)
            requires
                uy == y as u8 as u32,
                info == (old_info & 0xFFFF00FF) | (uy << 8),
        ;
        self.move_info = info;
    }

    /// Replaces the depth and keeps everything else.
    pub fn set_depth(&mut self, depth: u8)
        ensures
            final(self).spec_depth() == depth,
            final(self).spec_x() == old(self).spec_x(),
            final(self).spec_y() == old(self).spec_y(),
            info_rest(final(self).move_info) == info_rest(old(self).move_info),
            final(self).hash == old(self).hash,
            final(self).parent == old(self).parent,
            final(self).child == old(self).child,
            final(self).sibling == old(self).sibling,
    {
        let old_info = self.move_info;
        let ud = depth as u32;
        let info = (old_info & 0xFF00FFFF) | (ud << 16);
        assert(info_depth(info) == depth && info_x(info) == info_x(old_info) && info_y(info) == info_y(
            old_info,
        ) && info_rest(info) == info_rest(old_info)) by (bit_vector)
            requires
                ud == depth as u32,
                info == (old_info & 0xFF00FFFF) | (ud << 16),
        ;
        self.move_info = info;
    }
}


/// The hasher of `rustc_hash` (`FxHasher`).
#[verifier::external_type_specification]
#[verifier::external_body]
pub struct ExFxHasher(FxHasher);

/// The hasher builder of `rustc_hash` (`FxBuildHasher`).
#[verifier::external_type_specification]
#[verifier::external_body]
pub struct ExFxBuildHasher(FxBuildHasher);

/// `FxHasher::default`. Nothing is stated of the hasher's state.
#[verifier::external_body]
fn fx_hasher() -> FxHasher {
    FxHasher::default()
}

/// `<[u8] as Hash>::hash` into an `FxHasher`. What it feeds the hasher
/// depends on the width of `usize` (the length prefix), so nothing is stated.
#[verifier::external_body]
fn fx_hash_bytes(bytes: &[u8], state: &mut FxHasher) {
    bytes.hash(state)
}

/// `FxHasher::finish`. The value depends on the width of `usize`, so nothing
/// is stated of it.
#[verifier::external_body]
fn fx_finish(state: &FxHasher) -> u64 {
    state.finish()
}

/// `FxHashMap::default`: an empty map.
#[verifier::external_body]
pub(crate) fn id_map_new() -> (m: FxHashMap<u64, u32>)
    ensures
        m@.dom() == Set::<u64>::empty(),
{
    FxHashMap::default()
}

/// `HashMap::get` on an `FxHashMap` (the hasher is deterministic): the value
/// stored under `k`, if any.
#[verifier::external_body]
pub(crate) fn id_map_get(m: &FxHashMap<u64, u32>, k: u64) -> (r: Option<u32>)
    ensures
        r == (if m@.contains_key(k) { Some(m@[k]) } else { None::<u32> }),
{
    m.get(&k).copied()
}

/// `HashMap::insert` on an `FxHashMap`: stores `v` under `k`.
#[verifier::external_body]
pub(crate) fn id_map_insert(m: &mut FxHashMap<u64, u32>, k: u64, v: u32)
    ensures
        final(m)@ == old(m)@.insert(k, v),
{
    m.insert(k, v);
}

/// `HashMap::remove` on an `FxHashMap`: drops the entry of `k`, if any.
#[verifier::external_body]
pub(crate) fn id_map_remove(m: &mut FxHashMap<u64, u32>, k: u64)
    ensures
        final(m)@ == old(m)@.remove(k),
{
    m.remove(&k);
}

/// `HashMap::clear` on an `FxHashMap`: empties the map.
#[verifier::external_body]
pub(crate) fn id_map_clear(m: &mut FxHashMap<u64, u32>)
    ensures
        final(m)@.dom() == Set::<u64>::empty(),
{
    m.clear();
}

/// The bytes `buffer[offset..offset + len]`.
pub open spec fn span_text(buffer: Seq<u8>, span: (u32, u32)) -> Seq<u8> {
    buffer.subrange(span.0 as int, span.0 + span.1)
}

/// Texts stored once each in one buffer: text `i` is `buffer[spans[i]]`;
/// `lookup` finds the newest text of a hash and `next_chain` the older ones.
#[derive(Clone)]
pub struct TextPool {
    pub buffer: Vec<u8>,
    pub spans: Vec<(u32, u32)>,
    pub lookup: FxHashMap<u64, u32>,
    pub next_chain: Vec<u32>,
}

impl TextPool {
    /// The stored texts, by id.
    pub open spec fn texts(&self) -> Seq<Seq<u8>> {
        Seq::new(self.spans@.len(), |i: int| span_text(self.buffer@, self.spans@[i]))
    }

    /// Well-formedness: spans inside the buffer, ids below `NO_TEXT`, and
    /// the chains of older ids run downwards.
    pub open spec fn wf(&self) -> bool {
        &&& self.buffer@.len() <= u32::MAX
        &&& self.spans@.len() < NO_TEXT
        &&& self.next_chain@.len() == self.spans@.len()
        &&& forall|i: int| 0 <= i < self.spans@.len() ==> #[trigger] self.spans@[i].0 + self.spans@[i].1 <= self.buffer@.len()
        &&& forall|i: int| 0 <= i < self.next_chain@.len() ==> #[trigger] self.next_chain@[i] == NO_TEXT || self.next_chain@[i] < i
        &&& forall|h: u64| #[trigger] self.lookup@.contains_key(h) ==> self.lookup@[h] < self.spans@.len()
    }

    /// An empty pool.
    pub fn new() -> (p: Self)
        ensures
            p.wf(),
            p.texts() == Seq::<Seq<u8>>::empty(),
            p.buffer@.len() == 0,
            p.spans@.len() == 0,
    {
        let p = TextPool {
            buffer: Vec::with_capacity(1024 * 1024),
            spans: Vec::with_capacity(10000),
            lookup: id_map_new(),
            next_chain: Vec::with_capacity(10000),
        };
        proof {
            assert(p.texts() =~= Seq::<Seq<u8>>::empty());
        }
        p
    }

    /// The hash that files a text.
    fn hash_bytes(bytes: &[u8]) -> u64 {
        let mut hasher = fx_hasher();
        fx_hash_bytes(bytes, &mut hasher);
        fx_finish(&hasher)
    }

    /// Whether the stored span `span` holds exactly `text`.
    fn span_equals(&self, span: (u32, u32), text: &[u8]) -> (r: bool)
        requires
            span.0 + span.1 <= self.buffer@.len(),
        ensures
            r == (span_text(self.buffer@, span) == text@),
    {
        let offset = span.0 as usize;
        let len = span.1 as usize;
        if len != text.len() {
            proof {
                assert(span_text(self.buffer@, span).len() != text@.len());
            }
            return false;
        }
        let blen = self.buffer.len();
        let mut i: usize = 0;
        while i < len
            invariant
                offset + len <= self.buffer@.len(),
                self.buffer@.len() == blen,
                len == text@.len(),
                offset == span.0,
                len == span.1,
                i <= len,
                forall|j: int| 0 <= j < i ==> self.buffer@[offset + j] == text@[j],
            decreases len - i,
        {
            if self.buffer[offset + i] != text[i] {
                proof {
                    assert(span_text(self.buffer@, span)[i as int] != text@[i as int]);
                }
                return false;
            }
            i += 1;
        }
        proof {
            assert(span_text(self.buffer@, span) =~= text@);
        }
        true
    }

    /// The first id on the chain that starts at `id` (following
    /// `next_chain` to older ids) whose stored text is `text`.
    pub open spec fn chain_hit(&self, id: int, text: Seq<u8>) -> Option<int>
        decreases id + 1,
    {
        if id < 0 || id >= self.spans@.len() || id >= self.next_chain@.len() {
            None
        } else if self.texts()[id] == text {
            Some(id)
        } else if self.next_chain@[id] == NO_TEXT || self.next_chain@[id] >= id {
            None
        } else {
            self.chain_hit(self.next_chain@[id] as int, text)
        }
    }

    /// The id filed under hash `hash` whose text is `text`, if any: the
    /// chain from the newest text of the hash is searched.
    pub open spec fn filed_id(&self, hash: u64, text: Seq<u8>) -> Option<int> {
        if self.lookup@.contains_key(hash) {
            self.chain_hit(self.lookup@[hash] as int, text)
        } else {
            None
        }
    }

    /// The id of `text`, storing it first if no text filed under its hash
    /// equals it. Equal texts get equal hashes within one run, so a text
    /// stored before is found again; that hash depends on the machine's
    /// word size (the outside hasher works on `usize`), so it has no name
    /// here and the contract leaves the reuse to `get_or_insert_hashed`,
    /// which states it for the hash that was computed.
    pub fn get_or_insert(&mut self, text: &[u8]) -> (id: u32)
        requires
            old(self).wf(),
            old(self).buffer@.len() + text@.len() <= u32::MAX,
            old(self).spans@.len() + 1 < NO_TEXT,
        ensures
            final(self).wf(),
            id < final(self).texts().len(),
            final(self).texts()[id as int] == text@,
            final(self).texts() == old(self).texts() || (final(self).texts() == old(self).texts().push(text@)
                && id == old(self).texts().len()),
            final(self).buffer@.len() <= old(self).buffer@.len() + text@.len(),
            final(self).spans@.len() <= old(self).spans@.len() + 1,
    {
        let hash = Self::hash_bytes(text);
        self.get_or_insert_hashed(text, hash)
    }

    /// The id of `text` filed under `hash`: the id of an equal text on the
    /// hash's chain, the pool unchanged; otherwise `text` is appended with
    /// the next id and becomes the newest text of the hash.
    pub fn get_or_insert_hashed(&mut self, text: &[u8], hash: u64) -> (id: u32)
        requires
            old(self).wf(),
            old(self).buffer@.len() + text@.len() <= u32::MAX,
            old(self).spans@.len() + 1 < NO_TEXT,
        ensures
            final(self).wf(),
            id < final(self).texts().len(),
            final(self).texts()[id as int] == text@,
            match old(self).filed_id(hash, text@) {
                Some(j) => id == j && *final(self) == *old(self),
                None => {
                    &&& id == old(self).texts().len()
                    &&& final(self).texts() == old(self).texts().push(text@)
                    &&& final(self).buffer@ == old(self).buffer@ + text@
                    &&& final(self).spans@ == old(self).spans@.push((old(self).buffer@.len() as u32, text@.len() as u32))
                    &&& final(self).lookup@ == old(self).lookup@.insert(hash, id)
                    &&& final(self).next_chain@ == old(self).next_chain@.push(
                        if old(self).lookup@.contains_key(hash) { old(self).lookup@[hash] } else { NO_TEXT },
                    )
                },
            },
    {
        match id_map_get(&self.lookup, hash) {
            Some(first_id) => {
                let mut current_id = first_id;
                loop
                    invariant
                        self.wf(),
                        self == old(self),
                        current_id < self.spans@.len(),
                        old(self).filed_id(hash, text@) == self.chain_hit(current_id as int, text@),
                    ensures
                        self.wf(),
                        self == old(self),
                        old(self).filed_id(hash, text@) is None,
                    decreases current_id,
                {
                    let span = self.spans[current_id as usize];
                    if self.span_equals(span, text) {
                        proof {
                            assert(self.texts()[current_id as int] == text@);
                        }
                        return current_id;
                    }
                    proof {
                        assert(self.texts()[current_id as int] != text@);
                    }
                    let next = self.next_chain[current_id as usize];
                    if next == NO_TEXT {
                        proof {
                            assert(self.chain_hit(current_id as int, text@) is None);
                        }
                        break;
                    }
                    proof {
                        assert(self.chain_hit(current_id as int, text@) == self.chain_hit(next as int, text@));
                    }
                    current_id = next;
                }
            },
            None => {},
        }
        proof {
            assert(old(self).filed_id(hash, text@) is None);
        }
        let ghost old_texts = self.texts();
        let new_id = self.spans.len() as u32;
        let offset = self.buffer.len() as u32;
        let len = text.len() as u32;
        self.buffer.extend_from_slice(text);
        self.spans.push((offset, len));
        let chain = match id_map_get(&self.lookup, hash) {
            Some(existing_first_id) => existing_first_id,
            None => NO_TEXT,
        };
        self.next_chain.push(chain);
        id_map_insert(&mut self.lookup, hash, new_id);
        proof {
            assert forall|i: int| 0 <= i < old_texts.len() implies #[trigger] self.texts()[i] == old_texts[i] by {
                assert(self.spans@[i] == old(self).spans@[i]);
                assert(span_text(self.buffer@, self.spans@[i]) =~= span_text(old(self).buffer@, old(self).spans@[i]));
            }
            assert(span_text(self.buffer@, (offset, len)) =~= text@);
            assert(self.texts() =~= old_texts.push(text@));
        }
        new_id
    }

    /// The text with id `id`, if there is one.
    pub fn get(&self, id: u32) -> (r: Option<&[u8]>)
        requires
            self.wf(),
        ensures
            match r {
                Some(s) => id < self.texts().len() && s@ == self.texts()[id as int],
                None => id >= self.texts().len(),
            },
    {
        if id == NO_TEXT || id as usize >= self.spans.len() {
            None
        } else {
            let (offset, len) = self.spans[id as usize];
            Some(slice_subrange(self.buffer.as_slice(), offset as usize, (offset + len) as usize))
        }
    }
}

} // verus!
