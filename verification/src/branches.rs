use vstd::prelude::*;
use crate::board::{Player, cells_only};
use crate::engine::hash_board::{Board as HashBoard, Stone, lemma_placed_hashes};
use crate::engine::node::{RenLibNode, NO_NODE, NO_TEXT, id_map_get};
use crate::engine::zobrist::on_board;
use crate::io::codec::decoded;
use crate::session::{
    RenjuApp, find_child, history_stones, position_hash, subtree_value, text_part, pair_at, history_board,
    lemma_canonical_of, find_child_exec,
};
use crate::text::{push_str, push_dec, dec_text};

verus! {

/// The canonical hash after the side to move plays (x, y) on the position
/// `history` reaches (off the board nothing is placed).
pub open spec fn hash_after(history: Seq<usize>, x: int, y: int) -> u64 {
    if on_board(x, y) {
        position_hash(history.push((y * 15 + x) as usize))
    } else {
        position_hash(history)
    }
}

/// The first node with a move in the sibling chain from `c` (at most `fuel`
/// nodes looked at) whose move leads to a position of hash `h`.
pub open spec fn sym_child(nodes: Seq<RenLibNode>, c: u32, fuel: nat, history: Seq<usize>, h: u64) -> Option<int>
    decreases fuel,
{
    if fuel == 0 || c == NO_NODE || c >= nodes.len() {
        None
    } else if nodes[c as int].spec_x() >= 0 && hash_after(
        history,
        nodes[c as int].spec_x() as int,
        nodes[c as int].spec_y() as int,
    ) == h {
        Some(c as int)
    } else {
        sym_child(nodes, nodes[c as int].sibling, (fuel - 1) as nat, history, h)
    }
}

/// How a branch mark relates to the tree: a child of the node shown
/// (`Normal`), a position reached by a symmetric move (`Symmetry`), or a
/// position the tree also reaches by another order of moves (`Merge`).
#[derive(Clone, Copy, PartialEq, Eq, Structural, Debug)]
pub enum MoveType {
    Normal,
    Symmetry,
    Merge,
}

/// A branch mark on an empty cell: its kind, the node it leads to, the
/// size of the tree below, the node's board text, and whether its size is
/// among the largest.
pub struct BranchInfo {
    pub x: usize,
    pub y: usize,
    pub move_type: MoveType,
    pub target_node_idx: Option<usize>,
    pub count: usize,
    pub text: Option<String>,
    pub highlighted: bool,
}

/// The larger of two sizes.
pub open spec fn larger(a: usize, b: usize) -> usize {
    if a >= b {
        a
    } else {
        b
    }
}

/// How many of the first `j` sizes come before size `i` in the order of
/// decreasing size (earlier first among equal sizes).
pub open spec fn rank_upto(counts: Seq<usize>, i: int, j: nat) -> nat
    decreases j,
{
    if j == 0 {
        0
    } else {
        let k = j - 1;
        rank_upto(counts, i, k as nat) + if counts[k] > counts[i] || (counts[k] == counts[i] && k < i) {
            1nat
        } else {
            0nat
        }
    }
}

/// Whether size `i` is among the `top` largest (counted in that order) and
/// not zero.
pub open spec fn is_top(counts: Seq<usize>, i: int, top: nat) -> bool {
    counts[i] > 0 && rank_upto(counts, i, counts.len()) < top
}


/// Whether size `k` comes before size `i` in the order of decreasing size
/// (earlier first among equal sizes).
pub open spec fn before(counts: Seq<usize>, k: int, i: int) -> bool {
    counts[k] > counts[i] || (counts[k] == counts[i] && k < i)
}

/// The rank counts the sizes that come before: one that comes before `j`
/// ranks below it.
proof fn lemma_rank_before(counts: Seq<usize>, i: int, j: int, n: nat)
    requires
        0 <= i < counts.len(),
        0 <= j < counts.len(),
        n <= counts.len(),
        before(counts, i, j),
    ensures
        rank_upto(counts, i, n) + (if i < n { 1int } else { 0int }) <= rank_upto(counts, j, n),
    decreases n,
{
    if n > 0 {
        lemma_rank_before(counts, i, j, (n - 1) as nat);
    }
}

/// The rank of a size is at most the number of sizes looked at.
proof fn lemma_rank_bound(counts: Seq<usize>, i: int, n: nat)
    requires
        n <= counts.len(),
    ensures
        rank_upto(counts, i, n) <= n,
    decreases n,
{
    if n > 0 {
        lemma_rank_bound(counts, i, (n - 1) as nat);
    }
}

/// Highlighting picks the largest sizes: a highlighted size is never 0,
/// any nonzero size larger than a highlighted one (or as large and
/// earlier) is highlighted too, and with no room (`top` 0) nothing is.
pub proof fn lemma_highlight_picks_largest(counts: Seq<usize>, top: nat)
    ensures
        forall|i: int| 0 <= i < counts.len() && #[trigger] is_top(counts, i, top) ==> counts[i] > 0,
        forall|i: int, j: int|
            0 <= i < counts.len() && 0 <= j < counts.len() && #[trigger] is_top(counts, i, top) && counts[j] > 0 && before(
                counts,
                j,
                i,
            ) ==> #[trigger] is_top(counts, j, top),
        top == 0 ==> forall|i: int| 0 <= i < counts.len() ==> !#[trigger] is_top(counts, i, top),
{
    assert forall|i: int, j: int|
        0 <= i < counts.len() && 0 <= j < counts.len() && #[trigger] is_top(counts, i, top) && counts[j] > 0 && before(counts, j, i)
            implies #[trigger] is_top(counts, j, top) by {
        lemma_rank_before(counts, j, i, counts.len());
    }
}

/// The kind of a branch mark whose position the table knows: normal when
/// the table's node is the child of the node shown that plays the mark's
/// cell; otherwise a merge point when that node's own move is the mark's
/// cell (the tree reaches the position in another order), and a symmetric
/// point when its move is another cell.
pub proof fn lemma_branch_kinds(app: &RenjuApp, target: Option<usize>, c: int)
    requires
        0 <= c < 225,
        app.hash_table is Some,
        app.hash_table->0@.contains_key(position_hash(app.board@.history.push(c as usize))),
    ensures
        ({
            let nodes = app.lib_nodes->0@;
            let head = app.hash_table->0@[position_hash(app.board@.history.push(c as usize))] as int;
            let direct = if !app.is_db_mode && target is Some {
                find_child(nodes, nodes[target->0 as int].child, nodes.len(), (c % 15) as i8, (c / 15) as i8)
            } else {
                None
            };
            let own_move = nodes[head].spec_x() == c % 15 && nodes[head].spec_y() == c / 15;
            let (kind, _) = app.branch_at(target, c)->0;
            &&& app.branch_at(target, c) is Some
            &&& (kind == MoveType::Normal <==> direct == Some(head))
            &&& (kind == MoveType::Merge <==> direct != Some(head) && own_move)
            &&& (kind == MoveType::Symmetry <==> direct != Some(head) && !own_move)
        }),
{
}

impl RenjuApp {
    /// The kind of the branch mark on empty cell `c` and the node it leads
    /// to, if the position after a stone there is known: seen from node
    /// `target` (its children count only outside a database).
    pub open spec fn branch_at(&self, target: Option<usize>, c: int) -> Option<(MoveType, int)> {
        let nodes = self.lib_nodes->0@;
        let hist = self.board@.history;
        let h = position_hash(hist.push(c as usize));
        let x = c % 15;
        let y = c / 15;
        let from_tree = !self.is_db_mode && target is Some;
        let direct: Option<int> = if from_tree {
            find_child(nodes, nodes[target->0 as int].child, nodes.len(), x as i8, y as i8)
        } else {
            None
        };
        if self.hash_table is Some && self.hash_table->0@.contains_key(h) {
            let head = self.hash_table->0@[h] as int;
            let explicit = nodes[head].spec_x() == x && nodes[head].spec_y() == y;
            let with_text = self.node_texts is Some && text_part(pair_at(self.node_texts->0@, head)) != NO_TEXT;
            let ty = if direct != Some(head) {
                if explicit {
                    MoveType::Merge
                } else {
                    MoveType::Symmetry
                }
            } else {
                MoveType::Normal
            };
            let tgt = if with_text || explicit {
                head
            } else {
                match direct {
                    Some(d) => d,
                    None => head,
                }
            };
            Some((ty, tgt))
        } else if direct is Some {
            Some((MoveType::Normal, direct->0))
        } else if from_tree {
            match sym_child(nodes, nodes[target->0 as int].child, nodes.len(), hist, h) {
                Some(k) => Some((MoveType::Symmetry, k)),
                None => None,
            }
        } else {
            None
        }
    }

    /// The size of the tree below the node the table files position `h`
    /// under (0 for an unknown position).
    pub open spec fn size_of_position(&self, h: u64) -> usize {
        if self.hash_table is Some && self.hash_table->0@.contains_key(h) {
            subtree_value(self.lib_nodes->0@, self.hash_table->0@[h] as int)
        } else {
            0
        }
    }

    /// The largest size of the positions one more stone (on a cell free
    /// after `c`, below `n`) leads to from the position after `c`.
    pub open spec fn lookahead_upto(&self, c: int, n: nat) -> usize
        decreases n,
    {
        if n == 0 {
            0
        } else {
            let c2 = n - 1;
            let hist = self.board@.history.push(c as usize);
            let here = if hist.contains(c2 as usize) {
                0
            } else {
                self.size_of_position(position_hash(hist.push(c2 as usize)))
            };
            larger(self.lookahead_upto(c, (n - 1) as nat), here)
        }
    }

    /// The size shown on the mark on cell `c`: the size of the tree below
    /// its position; for a database, the largest size one more stone
    /// reaches instead when that is larger.
    pub open spec fn branch_count(&self, c: int) -> usize {
        let direct = self.size_of_position(position_hash(self.board@.history.push(c as usize)));
        if self.is_db_mode {
            larger(direct, self.lookahead_upto(c, 225))
        } else {
            direct
        }
    }

    /// The empty cells below `n` that get a branch mark, in increasing order.
    pub open spec fn branch_cells(&self, target: Option<usize>, n: nat) -> Seq<int>
        decreases n,
    {
        if n == 0 {
            Seq::empty()
        } else {
            let c = n - 1;
            let rest = self.branch_cells(target, (n - 1) as nat);
            if self.board@.grid[c] == None::<Player> && self.branch_at(target, c) is Some {
                rest.push(c)
            } else {
                rest
            }
        }
    }

    /// The board text of node `idx`, decoded, as `decode_text` gives it.
    pub open spec fn text_view(&self, idx: int) -> Option<Seq<char>> {
        let tid = match self.node_texts {
            Some(t) => text_part(pair_at(t@, idx)),
            None => NO_TEXT,
        };
        if tid != NO_TEXT && self.text_pool is Some && tid < self.text_pool->0.texts().len() {
            Some(decoded(self.text_encoding, self.text_pool->0.texts()[tid as int]))
        } else {
            None
        }
    }
}

/// What the branch marks depend on does not involve the cached subtree
/// sizes.
proof fn lemma_marks_ignore_cache(a: &RenjuApp, b: &RenjuApp, target: Option<usize>)
    requires
        a.same_but_cache(b),
    ensures
        forall|c: int| #[trigger] a.branch_at(target, c) == b.branch_at(target, c),
        forall|c: int| #[trigger] a.branch_count(c) == b.branch_count(c),
        forall|i: int| #[trigger] a.text_view(i) == b.text_view(i),
        forall|n: nat| #[trigger] a.branch_cells(target, n) == b.branch_cells(target, n),
{
    assert forall|c: int| #[trigger] a.branch_count(c) == b.branch_count(c) by {
        lemma_lookahead_same(a, b, c, 225);
    }
    assert forall|n: nat| #[trigger] a.branch_cells(target, n) == b.branch_cells(target, n) by {
        lemma_cells_same(a, b, target, n);
    }
}

proof fn lemma_lookahead_same(a: &RenjuApp, b: &RenjuApp, c: int, n: nat)
    requires
        a.same_but_cache(b),
    ensures
        a.lookahead_upto(c, n) == b.lookahead_upto(c, n),
    decreases n,
{
    if n > 0 {
        lemma_lookahead_same(a, b, c, (n - 1) as nat);
    }
}

proof fn lemma_cells_same(a: &RenjuApp, b: &RenjuApp, target: Option<usize>, n: nat)
    requires
        a.same_but_cache(b),
    ensures
        a.branch_cells(target, n) == b.branch_cells(target, n),
    decreases n,
{
    if n > 0 {
        lemma_cells_same(a, b, target, (n - 1) as nat);
        assert(a.branch_at(target, n - 1) == b.branch_at(target, n - 1));
    }
}

/// The canonical hash after (x, y) is played on a hashing board of the
/// position `hist` reaches (see `hash_after`).
fn hash_after_exec(pb: &HashBoard, hist: Ghost<Seq<usize>>, x: i8, y: i8) -> (h: u64)
    requires
        pb.hashes_of(history_stones(hist@)),
        pb.move_count == hist@.len(),
        hist@.len() < usize::MAX,
        cells_only(hist@),
    ensures
        h == hash_after(hist@, x as int, y as int),
{
    let mut pb2 = *pb;
    pb2.make_move(x, y);
    let h = pb2.get_canonical_hash();
    proof {
        if on_board(x as int, y as int) {
            let cell = (y * 15 + x) as usize;
            lemma_placed_hashes(*pb, pb2, history_stones(hist@), x as int, y as int, (hist@.len() % 2) as int);
            assert(history_stones(hist@.push(cell)) =~= history_stones(hist@).push(
                ((cell % 15) as int, (cell / 15) as int, (hist@.len() % 2) as int),
            ));
            lemma_canonical_of(pb2, hist@.push(cell), h);
        } else {
            assert(pb2.hashes == pb.hashes);
            lemma_canonical_of(pb2, hist@, h);
        }
    }
    h
}

/// The first node of the chain from `first` with a move whose position has
/// hash `h` (see `sym_child`, with the tree's size as fuel).
fn sym_child_exec(nodes: &Vec<RenLibNode>, first: u32, pb: &HashBoard, hist: Ghost<Seq<usize>>, h: u64) -> (r: Option<usize>)
    requires
        crate::io::parser::links_ok(nodes@),
        first == NO_NODE || first < nodes@.len(),
        pb.hashes_of(history_stones(hist@)),
        pb.move_count == hist@.len(),
        hist@.len() < usize::MAX,
        cells_only(hist@),
    ensures
        match r {
            Some(c) => sym_child(nodes@, first, nodes@.len(), hist@, h) == Some(c as int) && c < nodes@.len(),
            None => sym_child(nodes@, first, nodes@.len(), hist@, h) is None,
        },
{
    let n = nodes.len();
    let mut c = first;
    let mut steps: usize = 0;
    while steps < n && c != NO_NODE
        invariant
            crate::io::parser::links_ok(nodes@),
            n == nodes@.len(),
            steps <= n,
            c == NO_NODE || c < n,
            pb.hashes_of(history_stones(hist@)),
            pb.move_count == hist@.len(),
            hist@.len() < usize::MAX,
            cells_only(hist@),
            sym_child(nodes@, first, n as nat, hist@, h) == sym_child(nodes@, c, (n - steps) as nat, hist@, h),
        decreases n - steps,
    {
        let node = &nodes[c as usize];
        if node.x() >= 0 {
            let hc = hash_after_exec(pb, hist, node.x(), node.y());
            if hc == h {
                return Some(c as usize);
            }
        }
        c = node.sibling;
        steps += 1;
    }
    None
}

/// Which cells a move list occupies.
fn occupancy(history: &Vec<usize>) -> (occ: Vec<bool>)
    requires
        cells_only(history@),
    ensures
        occ@.len() == 225,
        forall|k: int| 0 <= k < 225 ==> (#[trigger] occ@[k] <==> history@.contains(k as usize)),
{
    let mut occ: Vec<bool> = Vec::new();
    let mut k: usize = 0;
    while k < 225
        invariant
            k <= 225,
            occ@.len() == k,
            forall|j: int| 0 <= j < k ==> !occ@[j],
        decreases 225 - k,
    {
        occ.push(false);
        k += 1;
    }
    let mut i: usize = 0;
    while i < history.len()
        invariant
            i <= history@.len(),
            cells_only(history@),
            occ@.len() == 225,
            forall|j: int| 0 <= j < 225 ==> (#[trigger] occ@[j] <==> history@.take(i as int).contains(j as usize)),
        decreases history@.len() - i,
    {
        let m = history[i];
        occ.set(m, true);
        proof {
            assert forall|j: int| 0 <= j < 225 implies (#[trigger] occ@[j] <==> history@.take(i + 1).contains(j as usize)) by {
                assert(history@.take(i + 1) =~= history@.take(i as int).push(m));
                let t1 = history@.take(i + 1);
                let t0 = history@.take(i as int);
                if t1.contains(j as usize) && j != m as int {
                    let w = choose|w: int| 0 <= w < t1.len() && #[trigger] t1[w] == j as usize;
                    assert(t0[w] == j as usize);
                }
                if t0.contains(j as usize) {
                    let w = choose|w: int| 0 <= w < t0.len() && #[trigger] t0[w] == j as usize;
                    assert(t1[w] == j as usize);
                }
                if j == m as int {
                    assert(history@.take(i + 1)[i as int] == m);
                }
            }
        }
        i += 1;
    }
    proof {
        assert(history@.take(history@.len() as int) =~= history@);
    }
    occ
}

impl RenjuApp {
    /// The kind and target of the mark on empty cell `c` (see `branch_at`).
    fn branch_kind_exec(&self, pb: &HashBoard, target: Option<usize>, c: usize) -> (r: Option<(MoveType, usize)>)
        requires
            self.wf(),
            self.lib_nodes is Some,
            c < 225,
            pb.hashes_of(history_stones(self.board@.history)),
            pb.move_count == self.board@.history.len(),
            self.board@.history.len() < usize::MAX,
            !self.is_db_mode && target is Some ==> target->0 < self.lib_nodes->0@.len(),
        ensures
            match r {
                Some((ty, t)) => self.branch_at(target, c as int) == Some((ty, t as int)) && t < self.lib_nodes->0@.len(),
                None => self.branch_at(target, c as int) is None,
            },
    {
        let ghost hist = self.board@.history;
        let x = (c % 15) as i8;
        let y = (c / 15) as i8;
        let h = hash_after_exec(pb, Ghost(hist), x, y);
        proof {
            assert(on_board(x as int, y as int));
            assert((y * 15 + x) as usize == c);
        }
        let nodes = match &self.lib_nodes {
            Some(v) => v,
            None => {
                return None;
            },
        };
        let from_tree = !self.is_db_mode && target.is_some();
        let direct: Option<usize> = if from_tree {
            match target {
                Some(t) => find_child_exec(nodes, nodes[t].child, x, y),
                None => None,
            }
        } else {
            None
        };
        let head = match &self.hash_table {
            Some(tb) => id_map_get(tb, h),
            None => None,
        };
        match head {
            Some(hd) => {
                let hd = hd as usize;
                proof {
                    assert(self.hash_table->0@.contains_key(h));
                }
                let explicit = nodes[hd].x() == x && nodes[hd].y() == y;
                let with_text = self.get_text_id(hd) != NO_TEXT;
                let ty = if direct != Some(hd) {
                    if explicit {
                        MoveType::Merge
                    } else {
                        MoveType::Symmetry
                    }
                } else {
                    MoveType::Normal
                };
                let tgt = if with_text || explicit {
                    hd
                } else {
                    match direct {
                        Some(d) => d,
                        None => hd,
                    }
                };
                Some((ty, tgt))
            },
            None => {
                match direct {
                    Some(d) => Some((MoveType::Normal, d)),
                    None => {
                        if from_tree {
                            match target {
                                Some(t) => match sym_child_exec(nodes, nodes[t].child, pb, Ghost(hist), h) {
                                    Some(k) => Some((MoveType::Symmetry, k)),
                                    None => None,
                                },
                                None => None,
                            }
                        } else {
                            None
                        }
                    },
                }
            },
        }
    }

    /// The size of the tree below the node the table files hash `h` under
    /// (see `size_of_position`).
    fn size_of_position_exec(&mut self, h: u64) -> (r: usize)
        requires
            old(self).wf(),
            old(self).lib_nodes is Some,
        ensures
            final(self).wf(),
            final(self).same_but_cache(old(self)),
            r == old(self).size_of_position(h),
    {
        let head = match &self.hash_table {
            Some(tb) => id_map_get(tb, h),
            None => None,
        };
        match head {
            Some(hd) => {
                proof {
                    assert(self.hash_table->0@.contains_key(h));
                }
                self.get_subtree_size(hd as usize)
            },
            None => 0,
        }
    }

    /// The size shown on the mark on cell `c` (see `branch_count`).
    fn branch_count_exec(&mut self, pb: &HashBoard, occ: &Vec<bool>, c: usize) -> (r: usize)
        requires
            old(self).wf(),
            old(self).lib_nodes is Some,
            c < 225,
            pb.hashes_of(history_stones(old(self).board@.history)),
            pb.move_count == old(self).board@.history.len(),
            old(self).board@.history.len() + 1 < usize::MAX,
            old(self).board@.grid[c as int] == None::<Player>,
            occ@.len() == 225,
            forall|k: int| 0 <= k < 225 ==> (#[trigger] occ@[k] <==> old(self).board@.history.contains(k as usize)),
        ensures
            final(self).wf(),
            final(self).same_but_cache(old(self)),
            r == old(self).branch_count(c as int),
    {
        let ghost hist = self.board@.history;
        let x = (c % 15) as i8;
        let y = (c / 15) as i8;
        let h = hash_after_exec(pb, Ghost(hist), x, y);
        proof {
            assert(on_board(x as int, y as int));
            assert((y * 15 + x) as usize == c);
        }
        let direct = self.size_of_position_exec(h);
        if !self.is_db_mode {
            return direct;
        }
        let mut pb2 = *pb;
        pb2.make_move(x, y);
        let ghost hist2 = hist.push(c);
        proof {
            lemma_placed_hashes(*pb, pb2, history_stones(hist), x as int, y as int, (hist.len() % 2) as int);
            assert(history_stones(hist2) =~= history_stones(hist).push(
                ((c % 15) as int, (c / 15) as int, (hist.len() % 2) as int),
            ));
            assert(cells_only(hist2));
        }
        let mut best: usize = 0;
        let mut c2: usize = 0;
        while c2 < 225
            invariant
                c2 <= 225,
                c < 225,
                self.wf(),
                self.same_but_cache(old(self)),
                self.lib_nodes is Some,
                hist == self.board@.history,
                hist2 == hist.push(c),
                pb2.hashes_of(history_stones(hist2)),
                pb2.move_count == hist2.len(),
                hist2.len() < usize::MAX,
                cells_only(hist2),
                occ@.len() == 225,
                forall|k: int| 0 <= k < 225 ==> (#[trigger] occ@[k] <==> hist.contains(k as usize)),
                best == old(self).lookahead_upto(c as int, c2 as nat),
                hist == old(self).board@.history,
            decreases 225 - c2,
        {
            let ghost before = best;
            proof {
                assert(hist2.contains(c2) <==> (occ@[c2 as int] || c2 == c)) by {
                    if hist2.contains(c2) && c2 != c {
                        let w = choose|w: int| 0 <= w < hist2.len() && #[trigger] hist2[w] == c2;
                        assert(hist[w] == c2);
                    }
                    if hist.contains(c2) {
                        let w = choose|w: int| 0 <= w < hist.len() && #[trigger] hist[w] == c2;
                        assert(hist2[w] == c2);
                    }
                    if c2 == c {
                        assert(hist2[hist.len() as int] == c);
                    }
                }
            }
            if !occ[c2] && c2 != c {
                let h2 = hash_after_exec(&pb2, Ghost(hist2), (c2 % 15) as i8, (c2 / 15) as i8);
                proof {
                    assert(on_board((c2 % 15) as i8 as int, (c2 / 15) as i8 as int));
                    assert(((c2 / 15) as i8 * 15 + (c2 % 15) as i8) as usize == c2);
                }
                let size = self.size_of_position_exec(h2);
                if size > best {
                    best = size;
                }
            }
            c2 += 1;
        }
        if best > direct {
            best
        } else {
            direct
        }
    }

    /// The branch marks seen from node `target_idx` on the board shown: one
    /// per empty cell whose next position the tree or the table knows (see
    /// `branch_at`), in cell order, each with its size (`branch_count`),
    /// the board text of the node it leads to, and whether its size is one
    /// of the `top_n` largest (not zero; earlier cells first among equal
    /// sizes). None without a tree.
    pub fn branch_points(&mut self, target_idx: Option<usize>, top_n: usize) -> (r: Vec<BranchInfo>)
        requires
            old(self).wf(),
            old(self).lib_nodes is Some && !old(self).is_db_mode && target_idx is Some ==> target_idx->0
                < old(self).lib_nodes->0@.len(),
        ensures
            final(self).wf(),
            final(self).same_but_cache(old(self)),
            old(self).lib_nodes is None || old(self).board@.history.len() + 1 >= usize::MAX ==> r@.len() == 0,
            old(self).lib_nodes is Some && old(self).board@.history.len() + 1 < usize::MAX ==> ({
                let cells = old(self).branch_cells(target_idx, 225);
                let counts = Seq::new(r@.len(), |k: int| r@[k].count);
                &&& r@.len() == cells.len()
                &&& forall|k: int| 0 <= k < r@.len() ==> {
                    let c = cells[k];
                    let b = #[trigger] r@[k];
                    let kind = old(self).branch_at(target_idx, c)->0;
                    &&& b.x == c % 15 && b.y == c / 15
                    &&& b.move_type == kind.0
                    &&& b.target_node_idx == Some(kind.1 as usize)
                    &&& b.count == old(self).branch_count(c)
                    &&& match b.text {
                        Some(t) => old(self).text_view(kind.1) == Some(t@),
                        None => old(self).text_view(kind.1) is None,
                    }
                    &&& b.highlighted == is_top(counts, k, top_n as nat)
                    &&& b.highlighted ==> b.count > 0
                }
            }),
    {
        let mut infos: Vec<BranchInfo> = Vec::new();
        if self.lib_nodes.is_none() || self.board.history.len() >= usize::MAX - 1 {
            return infos;
        }
        let pb = history_board(&self.board.history);
        let occ = occupancy(&self.board.history);
        let mut c: usize = 0;
        while c < 225
            invariant
                c <= 225,
                self.wf(),
                self.same_but_cache(old(self)),
                self.lib_nodes is Some,
                self.board@.history.len() + 1 < usize::MAX,
                pb.hashes_of(history_stones(self.board@.history)),
                pb.move_count == self.board@.history.len(),
                occ@.len() == 225,
                forall|k: int| 0 <= k < 225 ==> (#[trigger] occ@[k] <==> self.board@.history.contains(k as usize)),
                !self.is_db_mode && target_idx is Some ==> target_idx->0 < self.lib_nodes->0@.len(),
                infos@.len() == old(self).branch_cells(target_idx, c as nat).len(),
                forall|k: int| 0 <= k < infos@.len() ==> {
                    let cc = old(self).branch_cells(target_idx, c as nat)[k];
                    let b = #[trigger] infos@[k];
                    let kind = old(self).branch_at(target_idx, cc)->0;
                    &&& b.x == cc % 15 && b.y == cc / 15
                    &&& b.move_type == kind.0
                    &&& b.target_node_idx == Some(kind.1 as usize)
                    &&& b.count == old(self).branch_count(cc)
                    &&& match b.text {
                        Some(t) => old(self).text_view(kind.1) == Some(t@),
                        None => old(self).text_view(kind.1) is None,
                    }
                    &&& !b.highlighted
                },
            decreases 225 - c,
        {
            proof {
                lemma_marks_ignore_cache(self, old(self), target_idx);
            }
            let ghost cells_c = old(self).branch_cells(target_idx, c as nat);
            proof {
                assert(old(self).branch_cells(target_idx, (c + 1) as nat) == if old(self).board@.grid[c as int]
                    == None::<Player> && old(self).branch_at(target_idx, c as int) is Some {
                    cells_c.push(c as int)
                } else {
                    cells_c
                });
            }
            if self.board.grid[c].is_none() {
                match self.branch_kind_exec(&pb, target_idx, c) {
                    Some((ty, tgt)) => {
                        let count = self.branch_count_exec(&pb, &occ, c);
                        proof {
                            lemma_marks_ignore_cache(self, old(self), target_idx);
                        }
                        let text = self.decode_text(tgt);
                        let ghost before = infos@;
                        infos.push(
                            BranchInfo {
                                x: c % 15,
                                y: c / 15,
                                move_type: ty,
                                target_node_idx: Some(tgt),
                                count,
                                text,
                                highlighted: false,
                            },
                        );
                        proof {
                            assert(infos@.len() == before.len() + 1);
                            assert forall|k: int| 0 <= k < infos@.len() implies {
                                let cc = old(self).branch_cells(target_idx, (c + 1) as nat)[k];
                                let b = #[trigger] infos@[k];
                                let kind = old(self).branch_at(target_idx, cc)->0;
                                &&& b.x == cc % 15 && b.y == cc / 15
                                &&& b.move_type == kind.0
                                &&& b.target_node_idx == Some(kind.1 as usize)
                                &&& b.count == old(self).branch_count(cc)
                                &&& match b.text {
                                    Some(t) => old(self).text_view(kind.1) == Some(t@),
                                    None => old(self).text_view(kind.1) is None,
                                }
                                &&& !b.highlighted
                            } by {
                                if k < before.len() {
                                    assert(infos@[k] == before[k]);
                                }
                            }
                        }
                    },
                    None => {},
                }
            }
            c += 1;
        }
        let ghost cells = old(self).branch_cells(target_idx, 225);
        let ghost counts = Seq::new(infos@.len(), |k: int| infos@[k].count);
        let n = infos.len();
        let mut i: usize = 0;
        while i < n
            invariant
                i <= n,
                n == infos@.len(),
                n == cells.len(),
                counts == Seq::new(infos@.len(), |k: int| infos@[k].count),
                forall|k: int| 0 <= k < n ==> {
                    let cc = cells[k];
                    let b = #[trigger] infos@[k];
                    let kind = old(self).branch_at(target_idx, cc)->0;
                    &&& b.x == cc % 15 && b.y == cc / 15
                    &&& b.move_type == kind.0
                    &&& b.target_node_idx == Some(kind.1 as usize)
                    &&& b.count == old(self).branch_count(cc)
                    &&& match b.text {
                        Some(t) => old(self).text_view(kind.1) == Some(t@),
                        None => old(self).text_view(kind.1) is None,
                    }
                    &&& (k < i ==> b.highlighted == is_top(counts, k, top_n as nat))
                },
            decreases n - i,
        {
            let ci = infos[i].count;
            let mut rank: usize = 0;
            let mut j: usize = 0;
            while j < n
                invariant
                    j <= n,
                    i < n,
                    n == infos@.len(),
                    counts == Seq::new(infos@.len(), |k: int| infos@[k].count),
                    ci == counts[i as int],
                    rank == rank_upto(counts, i as int, j as nat),
                    rank <= j,
                decreases n - j,
            {
                let cj = infos[j].count;
                if cj > ci || (cj == ci && j < i) {
                    rank += 1;
                }
                j += 1;
            }
            let top = ci > 0 && rank < top_n;
            let mut b = infos.remove(i);
            b.highlighted = top;
            infos.insert(i, b);
            proof {
                assert(counts == Seq::new(infos@.len(), |k: int| infos@[k].count));
            }
            i += 1;
        }
        infos
    }
}

/// The size written on a branch mark: millions and thousands rounded to a
/// tenth ("1.2m", "3k"), smaller sizes in full, nothing for 0.
pub open spec fn count_text(count: nat) -> Seq<char> {
    if count >= 1_000_000 {
        let r = (count + 50_000) / 100_000;
        dec_text(r / 10) + (if r % 10 != 0 { seq!['.'] + dec_text(r % 10) } else { Seq::empty() }) + seq!['m']
    } else if count >= 1000 {
        let r = (count + 50) / 100;
        dec_text(r / 10) + (if r % 10 != 0 { seq!['.'] + dec_text(r % 10) } else { Seq::empty() }) + seq!['k']
    } else if count > 0 {
        dec_text(count)
    } else {
        Seq::empty()
    }
}

/// The text written on a branch mark for a size (see `count_text`).
pub fn branch_count_text(count: usize) -> (s: String)
    ensures
        s@ == count_text(count as nat),
{
    let mut s = String::new();
    if count >= 1_000_000 {
        let r = count / 100_000 + if count % 100_000 >= 50_000 { 1 } else { 0 };
        proof {
            assert(r == (count + 50_000) / 100_000) by (nonlinear_arith)
                requires
                    r == count / 100_000 + if count % 100_000 >= 50_000 { 1int } else { 0int },
            ;
        }
        push_dec(&mut s, r / 10);
        if r % 10 != 0 {
            push_str(&mut s, ".");
            push_dec(&mut s, r % 10);
        }
        push_str(&mut s, "m");
        proof {
            reveal_strlit(".");
            reveal_strlit("m");
        }
    } else if count >= 1000 {
        let r = (count + 50) / 100;
        push_dec(&mut s, r / 10);
        if r % 10 != 0 {
            push_str(&mut s, ".");
            push_dec(&mut s, r % 10);
        }
        push_str(&mut s, "k");
        proof {
            reveal_strlit(".");
            reveal_strlit("k");
        }
    } else if count > 0 {
        push_dec(&mut s, count);
    }
    proof {
        assert(s@ =~= count_text(count as nat));
    }
    s
}

} // verus!
