use vstd::prelude::*;
use rustc_hash::FxHashMap;
use crate::board::{Board, BoardModel, Player, cells_only, opponent, reversed};
use crate::engine::hash_board::{Board as HashBoard, Stone, hash_of, is_min8, lemma_placed_hashes};
use crate::engine::node::{RenLibNode, TextPool, NO_NODE, NO_TEXT, id_map_new, id_map_get, id_map_insert, id_map_remove, info_rest};
use crate::engine::zobrist::on_board;
use crate::io::codec::{decode_text, decoded, encode_text, encoded};
use crate::io::parser::{
    RenLibParser, links_ok, table_in_range, lib_agrees, lib_read, children_in_order, parents_one_up, hashed_as, read_pos,
    empty_pos, board_pos,
};
use crate::setting::TextEncoding;
use crate::vcf::solver::{Move, SearchMode, SolveOutcome, Solver, count_cells, side_to_move, bad_count_message, BLACK, WHITE};
use crate::vcf::blackforbiddenmove::forbidden_cells;
use crate::text::{push_str, push_dec, dec_text};
use crate::io::writer::{pow3, lemma_pow3_pos};

verus! {

/// What the viewer keeps of an open library: the board on screen, the tree
/// (or, for a database, the positions) with its hash table and texts, the
/// node shown, the branch chosen for deletion, the text encoding and node
/// limit of the settings, and the state of the VCF search and of the cache
/// of Black's forbidden points.
pub struct RenjuApp {
    pub board: Board,
    pub lib_nodes: Option<Vec<RenLibNode>>,
    pub hash_table: Option<FxHashMap<u64, u32>>,
    pub node_texts: Option<Vec<u32>>,
    pub text_pool: Option<TextPool>,
    pub current_node_idx: Option<usize>,
    pub is_db_mode: bool,
    pub node_to_delete: Option<usize>,
    pub text_encoding: TextEncoding,
    pub max_nodes: usize,
    pub vcf_solution: Vec<Move>,
    pub vcf_status: String,
    pub vcf_solving: bool,
    pub forbidden_points_board: [u8; 225],
    pub forbidden_points: Vec<usize>,
    pub forbidden_points_valid: bool,
    pub subtree_cache: Vec<Option<usize>>,
}

/// The number of nodes below node `k` as `get_subtree_size` counts them
/// (capped at `usize::MAX`).
pub open spec fn subtree_value(nodes: Seq<RenLibNode>, k: int) -> usize {
    let c = reach_count(nodes, nodes[k].child, nodes.len());
    if c < usize::MAX {
        c as usize
    } else {
        usize::MAX
    }
}

/// The stones of a move list for hashing: move `i` on cell `h[i]`, black
/// for even `i`.
pub open spec fn history_stones(h: Seq<usize>) -> Seq<Stone> {
    Seq::new(h.len(), |i: int| ((h[i] % 15) as int, (h[i] / 15) as int, i % 2))
}

/// The eight hashes of the position a move list reaches.
pub open spec fn history_hashes(h: Seq<usize>) -> spec_fn(int) -> u64 {
    |t: int| hash_of(history_stones(h), t)
}

/// The canonical hash of the position a move list reaches: the least of its
/// eight hashes.
pub open spec fn position_hash(h: Seq<usize>) -> u64 {
    choose|m: u64| is_min8(history_hashes(h), m)
}

/// At most one value is the least of eight.
pub proof fn lemma_min8_unique(f: spec_fn(int) -> u64, a: u64, b: u64)
    requires
        is_min8(f, a),
        is_min8(f, b),
    ensures
        a == b,
{
    let ta = choose|t: int| 0 <= t < 8 && #[trigger] f(t) == a;
    let tb = choose|t: int| 0 <= t < 8 && #[trigger] f(t) == b;
    assert(a <= f(tb));
    assert(b <= f(ta));
}

/// A hashing board after playing `history` on an empty board (black first).
pub(crate) fn history_board(history: &Vec<usize>) -> (pb: HashBoard)
    requires
        cells_only(history@),
    ensures
        pb.hashes_of(history_stones(history@)),
        pb.move_count == history@.len(),
{
    let mut pb = HashBoard::new();
    let mut i: usize = 0;
    while i < history.len()
        invariant
            i <= history@.len(),
            cells_only(history@),
            pb.move_count == i,
            pb.hashes_of(history_stones(history@.take(i as int))),
        decreases history@.len() - i,
    {
        let m = history[i];
        let ghost pb0 = pb;
        proof {
            assert(m < 225);
        }
        pb.make_move((m % 15) as i8, (m / 15) as i8);
        proof {
            assert(on_board((m % 15) as i8 as int, (m / 15) as i8 as int));
            lemma_placed_hashes(
                pb0,
                pb,
                history_stones(history@.take(i as int)),
                (m % 15) as i8 as int,
                (m / 15) as i8 as int,
                (i % 2) as int,
            );
            assert(history_stones(history@.take(i + 1)) =~= history_stones(history@.take(i as int)).push(
                ((m % 15) as int, (m / 15) as int, (i % 2) as int),
            ));
        }
        i += 1;
    }
    proof {
        assert(history@.take(history@.len() as int) =~= history@);
    }
    pb
}

/// The least hash of a board that hashes the stones of a move list is the
/// canonical hash of the position the list reaches.
pub(crate) proof fn lemma_canonical_of(pb: HashBoard, h: Seq<usize>, m: u64)
    requires
        pb.hashes_of(history_stones(h)),
        is_min8(pb.hash_view(), m),
    ensures
        m == position_hash(h),
{
    let f = history_hashes(h);
    assert forall|t: int| 0 <= t < 8 implies m <= #[trigger] f(t) by {
        assert(pb.hash_view()(t) == pb.hashes[t]);
        assert(m <= pb.hash_view()(t));
    }
    let t0 = choose|t: int| 0 <= t < 8 && #[trigger] pb.hash_view()(t) == m;
    assert(pb.hash_view()(t0) == pb.hashes[t0]);
    assert(f(t0) == m);
    assert(is_min8(f, m));
    lemma_min8_unique(f, m, position_hash(h));
}

/// The canonical hash of the position reached by playing `history` on an
/// empty board (black first).
fn history_hash(history: &Vec<usize>) -> (h: u64)
    requires
        cells_only(history@),
    ensures
        h == position_hash(history@),
{
    let pb = history_board(history);
    let h = pb.get_canonical_hash();
    proof {
        lemma_canonical_of(pb, history@, h);
    }
    h
}

/// The cell code of the solver for a grid entry: 1 black, 2 white, 0 empty.
pub open spec fn cell_code(p: Option<Player>) -> u8 {
    match p {
        Some(Player::Black) => BLACK,
        Some(Player::White) => WHITE,
        None => 0,
    }
}

/// The comment id packed in the low half of a pair (`NO_TEXT` for none).
pub open spec fn comment_part(texts: u32) -> u32 {
    if texts & 0xFFFF == 0xFFFF {
        NO_TEXT
    } else {
        texts & 0xFFFF
    }
}

/// The board-text id packed in the high half of a pair (`NO_TEXT` for none).
pub open spec fn text_part(texts: u32) -> u32 {
    if (texts >> 16u32) & 0xFFFF == 0xFFFF {
        NO_TEXT
    } else {
        (texts >> 16u32) & 0xFFFF
    }
}

/// The pair of node `idx` (both halves empty past the end).
pub open spec fn pair_at(texts: Seq<u32>, idx: int) -> u32 {
    if idx < texts.len() {
        texts[idx]
    } else {
        0xFFFF_FFFF
    }
}

/// The pairs after storing `half` (shifted by `shift`, the other half kept
/// under `keep`) for node `idx`, the list first grown with empty pairs to
/// reach it.
pub open spec fn pairs_set(texts: Seq<u32>, idx: int, keep: u32, half: u32) -> Seq<u32> {
    let n = if idx < texts.len() { texts.len() as int } else { idx + 1 };
    Seq::new(n as nat, |j: int| if j == idx { (pair_at(texts, j) & keep) | half } else { pair_at(texts, j) })
}

/// The least of `id` and 0xFFFF.
pub open spec fn clamp_id(id: u32) -> u32 {
    if id < 0xFFFF {
        id
    } else {
        0xFFFF
    }
}

impl RenjuApp {
    /// Well-formedness: a sound board, a tree with a root and links in range
    /// (with room for u32 indices), the node shown and the nodes the hash
    /// table names inside the tree, a sound text pool, and cached subtree
    /// sizes that are those of the tree.
    pub open spec fn wf(&self) -> bool {
        &&& self.board@.wf()
        &&& self.lib_nodes is Some ==> links_ok(self.lib_nodes->0@) && 1 <= self.lib_nodes->0@.len() < NO_NODE
        &&& (self.lib_nodes is Some && self.current_node_idx is Some) ==> self.current_node_idx->0
            < self.lib_nodes->0@.len()
        &&& self.text_pool is Some ==> self.text_pool->0.wf()
        &&& (self.hash_table is Some && self.lib_nodes is Some) ==> table_in_range(
            self.hash_table->0@,
            self.lib_nodes->0@.len(),
        )
        &&& self.lib_nodes is None ==> self.subtree_cache@.len() == 0
        &&& self.lib_nodes is Some ==> self.subtree_cache@.len() <= self.lib_nodes->0@.len()
        &&& self.lib_nodes is Some ==> forall|k: int| 0 <= k < self.subtree_cache@.len() && (#[trigger] self.subtree_cache@[k]) is Some
            ==> self.subtree_cache@[k]->0 == subtree_value(self.lib_nodes->0@, k)
    }

    /// The tree of a new game: a root node with no move, hash 0 and depth 0.
    pub open spec fn fresh_tree(nodes: Seq<RenLibNode>) -> bool {
        &&& nodes.len() == 1
        &&& nodes[0].spec_x() == -1 && nodes[0].spec_y() == -1
        &&& nodes[0].parent == NO_NODE && nodes[0].child == NO_NODE && nodes[0].sibling == NO_NODE
        &&& nodes[0].hash == 0 && nodes[0].spec_depth() == 0
        &&& info_rest(nodes[0].move_info) == 0
    }

    /// A viewer on a new game: empty board, a tree with only its root (hash
    /// 0 filed under node 0), no texts, the root shown, no search, nothing
    /// cached.
    pub fn new_with_settings(text_encoding: TextEncoding, max_nodes: usize) -> (app: Self)
        ensures
            app.wf(),
            app.board@.history.len() == 0 && app.board@.future.len() == 0,
            app.board@.next == Player::Black,
            forall|i: int| 0 <= i < 225 ==> app.board@.grid[i] == None::<Player>,
            app.lib_nodes is Some && Self::fresh_tree(app.lib_nodes->0@),
            app.hash_table is Some && app.hash_table->0@ == map![0u64 => 0u32],
            app.node_texts is Some && app.node_texts->0@.len() == 0,
            app.text_pool is Some && app.text_pool->0.texts().len() == 0,
            app.current_node_idx == Some(0usize),
            !app.is_db_mode,
            app.node_to_delete is None,
            app.text_encoding == text_encoding,
            app.max_nodes == max_nodes,
            app.vcf_solution@.len() == 0,
            app.vcf_status@.len() == 0,
            !app.vcf_solving,
            !app.forbidden_points_valid,
    {
        let root = RenLibNode::new(-1, -1, NO_NODE, NO_NODE, NO_NODE, 0, 0);
        let mut nodes: Vec<RenLibNode> = Vec::new();
        nodes.push(root);
        let mut table = id_map_new();
        id_map_insert(&mut table, 0, 0);
        let app = RenjuApp {
            board: Board::new(),
            lib_nodes: Some(nodes),
            hash_table: Some(table),
            node_texts: Some(Vec::new()),
            text_pool: Some(TextPool::new()),
            current_node_idx: Some(0),
            is_db_mode: false,
            node_to_delete: None,
            text_encoding,
            max_nodes,
            vcf_solution: Vec::new(),
            vcf_status: String::new(),
            vcf_solving: false,
            forbidden_points_board: [0; 225],
            forbidden_points: Vec::new(),
            forbidden_points_valid: false,
            subtree_cache: Vec::new(),
        };
        proof {
            assert(app.hash_table->0@ =~= map![0u64 => 0u32]);
            assert(links_ok(app.lib_nodes->0@));
        }
        app
    }

    /// Clears everything for a new game (the settings stay): as
    /// `new_with_settings`, with the search stopped as `clear_vcf_solution`
    /// stops it.
    pub fn new_game(&mut self)
        requires
            old(self).wf(),
        ensures
            final(self).wf(),
            final(self).board@.history.len() == 0 && final(self).board@.future.len() == 0,
            final(self).board@.next == Player::Black,
            forall|i: int| 0 <= i < 225 ==> final(self).board@.grid[i] == None::<Player>,
            final(self).lib_nodes is Some && Self::fresh_tree(final(self).lib_nodes->0@),
            final(self).hash_table is Some && final(self).hash_table->0@ == map![0u64 => 0u32],
            final(self).node_texts is Some && final(self).node_texts->0@.len() == 0,
            final(self).text_pool is Some && final(self).text_pool->0.texts().len() == 0,
            final(self).current_node_idx == Some(0usize),
            !final(self).is_db_mode,
            final(self).node_to_delete is None,
            final(self).text_encoding == old(self).text_encoding,
            final(self).max_nodes == old(self).max_nodes,
            final(self).vcf_solution@.len() == 0,
            final(self).vcf_solving == old(self).vcf_solving,
            !old(self).vcf_solving ==> final(self).vcf_status@.len() == 0,
            old(self).vcf_solving ==> final(self).vcf_status == old(self).vcf_status,
            final(self).forbidden_points_valid == old(self).forbidden_points_valid,
            final(self).forbidden_points == old(self).forbidden_points,
            final(self).forbidden_points_board == old(self).forbidden_points_board,
    {
        self.board = Board::new();
        let mut nodes: Vec<RenLibNode> = Vec::new();
        nodes.push(RenLibNode::new(-1, -1, NO_NODE, NO_NODE, NO_NODE, 0, 0));
        self.lib_nodes = Some(nodes);
        self.subtree_cache = Vec::new();
        let mut table = id_map_new();
        id_map_insert(&mut table, 0, 0);
        self.hash_table = Some(table);
        self.node_texts = Some(Vec::new());
        self.text_pool = Some(TextPool::new());
        self.current_node_idx = Some(0);
        self.is_db_mode = false;
        self.node_to_delete = None;
        self.clear_vcf_solution();
        proof {
            assert(self.hash_table->0@ =~= map![0u64 => 0u32]);
        }
    }

    /// Drops the solution shown; the status line too unless a search runs.
    pub fn clear_vcf_solution(&mut self)
        ensures
            final(self).vcf_solution@.len() == 0,
            !old(self).vcf_solving ==> final(self).vcf_status@.len() == 0,
            old(self).vcf_solving ==> final(self).vcf_status == old(self).vcf_status,
            final(self).board == old(self).board,
            final(self).lib_nodes == old(self).lib_nodes,
            final(self).hash_table == old(self).hash_table,
            final(self).node_texts == old(self).node_texts,
            final(self).text_pool == old(self).text_pool,
            final(self).current_node_idx == old(self).current_node_idx,
            final(self).is_db_mode == old(self).is_db_mode,
            final(self).node_to_delete == old(self).node_to_delete,
            final(self).text_encoding == old(self).text_encoding,
            final(self).max_nodes == old(self).max_nodes,
            final(self).vcf_solving == old(self).vcf_solving,
            final(self).forbidden_points_board == old(self).forbidden_points_board,
            final(self).forbidden_points == old(self).forbidden_points,
            final(self).forbidden_points_valid == old(self).forbidden_points_valid,
            final(self).subtree_cache == old(self).subtree_cache,
    {
        self.vcf_solution.clear();
        if !self.vcf_solving {
            self.vcf_status = String::new();
        }
    }

    /// The board in the solver's cell codes.
    pub fn current_vcf_board(&self) -> (b: [u8; 225])
        requires
            self.board@.wf(),
        ensures
            forall|i: int| 0 <= i < 225 ==> #[trigger] b@[i] == cell_code(self.board@.grid[i]),
    {
        let mut b: [u8; 225] = [0; 225];
        let mut i: usize = 0;
        while i < 225
            invariant
                i <= 225,
                self.board@.wf(),
                forall|j: int| 0 <= j < i ==> #[trigger] b@[j] == cell_code(self.board@.grid[j]),
            decreases 225 - i,
        {
            let code: u8 = match self.board.grid[i] {
                Some(Player::Black) => BLACK,
                Some(Player::White) => WHITE,
                None => 0,
            };
            b[i] = code;
            i += 1;
        }
        b
    }

    /// Black's forbidden cells on the board shown (none unless Black is to
    /// move), computed again only when the board differs from the one cached.
    pub fn cached_forbidden_points(&mut self) -> (r: Vec<usize>)
        requires
            old(self).wf(),
        ensures
            final(self).wf(),
            ({
                let b = Seq::new(225, |i: int| cell_code(old(self).board@.grid[i]));
                &&& r@ == if count_cells(b, BLACK) == count_cells(b, WHITE) {
                    forbidden_cells(b)
                } else {
                    Seq::empty()
                }
                &&& final(self).forbidden_points@ == r@
                &&& final(self).forbidden_points_board@ == b
                &&& final(self).forbidden_points_valid
            }) || (old(self).forbidden_points_valid && old(self).forbidden_points_board@ == Seq::new(
                225,
                |i: int| cell_code(old(self).board@.grid[i]),
            ) && r@ == old(self).forbidden_points@ && final(self).forbidden_points == old(self).forbidden_points
                && final(self).forbidden_points_valid),
            final(self).board == old(self).board,
            final(self).lib_nodes == old(self).lib_nodes,
            final(self).current_node_idx == old(self).current_node_idx,
    {
        let board = self.current_vcf_board();
        proof {
            assert(board@ =~= Seq::new(225, |i: int| cell_code(self.board@.grid[i])));
        }
        let mut same = self.forbidden_points_valid;
        let mut i: usize = 0;
        while same && i < 225
            invariant
                i <= 225,
                same ==> self.forbidden_points_valid,
                same ==> forall|j: int| 0 <= j < i ==> self.forbidden_points_board@[j] == board@[j],
            decreases 225 - i,
        {
            if self.forbidden_points_board[i] != board[i] {
                same = false;
            }
            i += 1;
        }
        if !same {
            self.forbidden_points = Solver::black_forbidden_points(board);
            self.forbidden_points_board = board;
            self.forbidden_points_valid = true;
        } else {
            proof {
                assert(self.forbidden_points_board@ =~= board@);
            }
        }
        copy_cells(&self.forbidden_points)
    }

    /// Ends a search with its outcome: the path found becomes the solution
    /// shown (its length in the status line), any other outcome clears it
    /// and says why.
    pub fn finish_vcf_search(&mut self, outcome: SolveOutcome)
        ensures
            !final(self).vcf_solving,
            match outcome {
                SolveOutcome::Found(path) => final(self).vcf_solution@ == path@ && final(self).vcf_status@
                    == "VCF found: "@ + crate::text::dec_text(path@.len()) + " moves"@,
                SolveOutcome::NotFound => final(self).vcf_solution@.len() == 0 && final(self).vcf_status@
                    == "VCF not found"@,
                SolveOutcome::Timeout => final(self).vcf_solution@.len() == 0 && final(self).vcf_status@
                    == "VCF search timed out"@,
                SolveOutcome::Cancelled => final(self).vcf_solution@.len() == 0 && final(self).vcf_status@
                    == "VCF search cancelled"@,
            },
            final(self).board == old(self).board,
            final(self).lib_nodes == old(self).lib_nodes,
            final(self).hash_table == old(self).hash_table,
            final(self).node_texts == old(self).node_texts,
            final(self).text_pool == old(self).text_pool,
            final(self).current_node_idx == old(self).current_node_idx,
            final(self).is_db_mode == old(self).is_db_mode,
            final(self).node_to_delete == old(self).node_to_delete,
            final(self).text_encoding == old(self).text_encoding,
            final(self).max_nodes == old(self).max_nodes,
            final(self).forbidden_points_board == old(self).forbidden_points_board,
            final(self).forbidden_points == old(self).forbidden_points,
            final(self).forbidden_points_valid == old(self).forbidden_points_valid,
    {
        self.vcf_solving = false;
        match outcome {
            SolveOutcome::Found(path) => {
                let mut status = String::new();
                push_str(&mut status, "VCF found: ");
                push_dec(&mut status, path.len());
                push_str(&mut status, " moves");
                self.vcf_status = status;
                self.vcf_solution = path;
            },
            SolveOutcome::NotFound => {
                self.vcf_status = String::new();
                push_str(&mut self.vcf_status, "VCF not found");
                self.vcf_solution.clear();
            },
            SolveOutcome::Timeout => {
                self.vcf_status = String::new();
                push_str(&mut self.vcf_status, "VCF search timed out");
                self.vcf_solution.clear();
            },
            SolveOutcome::Cancelled => {
                self.vcf_status = String::new();
                push_str(&mut self.vcf_status, "VCF search cancelled");
                self.vcf_solution.clear();
            },
        }
    }
}

/// A copy of a list of cells.
fn copy_cells(v: &Vec<usize>) -> (r: Vec<usize>)
    ensures
        r@ == v@,
{
    let mut r: Vec<usize> = Vec::new();
    let mut i: usize = 0;
    while i < v.len()
        invariant
            i <= v@.len(),
            r@ == v@.take(i as int),
        decreases v@.len() - i,
    {
        r.push(v[i]);
        proof {
            assert(v@.take(i + 1) =~= v@.take(i as int).push(v@[i as int]));
        }
        i += 1;
    }
    proof {
        assert(v@.take(v@.len() as int) =~= v@);
    }
    r
}


/// The first node on (x, y) in the sibling chain that starts at `c`, looking
/// at no more than `fuel` nodes.
pub open spec fn find_child(nodes: Seq<RenLibNode>, c: u32, fuel: nat, x: i8, y: i8) -> Option<int>
    decreases fuel,
{
    if fuel == 0 || c == NO_NODE || c >= nodes.len() {
        None
    } else if nodes[c as int].spec_x() == x && nodes[c as int].spec_y() == y {
        Some(c as int)
    } else {
        find_child(nodes, nodes[c as int].sibling, (fuel - 1) as nat, x, y)
    }
}

/// Going up from node `idx` towards the root, at most `fuel` steps: how many
/// of the nodes left behind carry a move on the board, and where the walk
/// stops (the root, `None` past a node without parent, or where fuel ran out).
pub open spec fn climb(nodes: Seq<RenLibNode>, idx: int, fuel: nat) -> (nat, Option<int>)
    decreases fuel,
{
    if idx == 0 || !(0 <= idx < nodes.len()) {
        (0, Some(idx))
    } else if fuel == 0 {
        (0, Some(idx))
    } else {
        let n = nodes[idx];
        let k: nat = if n.spec_x() >= 0 && n.spec_y() >= 0 { 1 } else { 0 };
        if n.parent == NO_NODE {
            (k, None)
        } else {
            let r = climb(nodes, n.parent as int, (fuel - 1) as nat);
            (k + r.0, r.1)
        }
    }
}

/// The board after `k` moves are taken back.
pub open spec fn undone_times(b: BoardModel, k: nat) -> BoardModel
    decreases k,
{
    if k == 0 {
        b
    } else {
        undone_times(b, (k - 1) as nat).undone()
    }
}

/// `c` is `b` with every move taken back (as `Board::undo_all` leaves it).
pub open spec fn cleared(b: BoardModel, c: BoardModel) -> bool {
    &&& c.wf()
    &&& c.history == Seq::<usize>::empty()
    &&& c.future == b.future + reversed(b.history)
    &&& forall|i: int| 0 <= i < 225 && !b.history.contains(i as usize) ==> c.grid[i] == b.grid[i]
    &&& forall|i: int| 0 <= i < 225 && b.history.contains(i as usize) ==> c.grid[i] == None::<Player>
}

/// The empty cells below `n` whose stone would reach a position of the
/// table, in increasing order.
pub open spec fn db_moves(grid: Seq<Option<Player>>, history: Seq<usize>, table: Map<u64, u32>, n: nat) -> Seq<
    usize,
>
    decreases n,
{
    if n == 0 {
        Seq::empty()
    } else {
        let c = (n - 1) as usize;
        let rest = db_moves(grid, history, table, (n - 1) as nat);
        if grid[c as int] == None::<Player> && table.contains_key(position_hash(history.push(c))) {
            rest.push(c)
        } else {
            rest
        }
    }
}

impl RenjuApp {
    /// The node of the position shown: for a database the one the table
    /// files under the position's canonical hash, else the node tracked.
    pub open spec fn current_node_spec(&self) -> Option<usize> {
        if self.is_db_mode {
            match self.hash_table {
                Some(t) => if t@.contains_key(position_hash(self.board@.history)) {
                    Some(t@[position_hash(self.board@.history)] as usize)
                } else {
                    None
                },
                None => None,
            }
        } else {
            self.current_node_idx
        }
    }

    /// Everything but the board, the node shown and the search state is the
    /// same in `self` and `o`.
    pub open spec fn same_library(&self, o: &Self) -> bool {
        &&& self.lib_nodes == o.lib_nodes
        &&& self.hash_table == o.hash_table
        &&& self.node_texts == o.node_texts
        &&& self.text_pool == o.text_pool
        &&& self.is_db_mode == o.is_db_mode
        &&& self.node_to_delete == o.node_to_delete
        &&& self.text_encoding == o.text_encoding
        &&& self.max_nodes == o.max_nodes
        &&& self.vcf_solving == o.vcf_solving
        &&& self.forbidden_points_board == o.forbidden_points_board
        &&& self.forbidden_points == o.forbidden_points
        &&& self.forbidden_points_valid == o.forbidden_points_valid
        &&& self.subtree_cache == o.subtree_cache
    }

    /// The search state after `clear_vcf_solution` from `o`.
    pub open spec fn solution_cleared(&self, o: &Self) -> bool {
        &&& self.vcf_solution@.len() == 0
        &&& !o.vcf_solving ==> self.vcf_status@.len() == 0
        &&& o.vcf_solving ==> self.vcf_status == o.vcf_status
    }

    /// The node of the position shown (see `current_node_spec`).
    pub fn get_current_node(&self) -> (r: Option<usize>)
        requires
            self.wf(),
        ensures
            r == self.current_node_spec(),
    {
        if self.is_db_mode {
            let h = history_hash(&self.board.history);
            match &self.hash_table {
                Some(t) => match id_map_get(t, h) {
                    Some(head) => Some(head as usize),
                    None => None,
                },
                None => None,
            }
        } else {
            self.current_node_idx
        }
    }

    /// The comment id of node `idx` (`NO_TEXT` for none).
    pub fn get_comment_id(&self, idx: usize) -> (r: u32)
        ensures
            r == match self.node_texts {
                Some(t) => comment_part(pair_at(t@, idx as int)),
                None => NO_TEXT,
            },
    {
        if let Some(map) = &self.node_texts {
            if idx < map.len() {
                let texts = map[idx];
                let id = texts & 0xFFFF;
                if id != 0xFFFF {
                    return id;
                }
            } else {
                assert(0xFFFF_FFFFu32 & 0xFFFF == 0xFFFF) by (bit_vector);
            }
        }
        NO_TEXT
    }

    /// The board-text id of node `idx` (`NO_TEXT` for none).
    pub fn get_text_id(&self, idx: usize) -> (r: u32)
        ensures
            r == match self.node_texts {
                Some(t) => text_part(pair_at(t@, idx as int)),
                None => NO_TEXT,
            },
    {
        if let Some(map) = &self.node_texts {
            if idx < map.len() {
                let texts = map[idx];
                let id = (texts >> 16) & 0xFFFF;
                if id != 0xFFFF {
                    return id;
                }
            } else {
                assert((0xFFFF_FFFFu32 >> 16u32) & 0xFFFF == 0xFFFF) by (bit_vector);
            }
        }
        NO_TEXT
    }

    /// Stores comment id `id` (at most 0xFFFF, which means none) for node
    /// `idx`, growing the list of pairs with empty ones to reach it.
    pub fn set_comment_id(&mut self, idx: usize, id: u32)
        requires
            idx < usize::MAX,
        ensures
            match old(self).node_texts {
                Some(t) => final(self).node_texts is Some && final(self).node_texts->0@ == pairs_set(
                    t@,
                    idx as int,
                    0xFFFF_0000,
                    clamp_id(id),
                ),
                None => final(self).node_texts is None,
            },
            final(self).same_library_but_texts(old(self)),
    {
        if let Some(map) = &mut self.node_texts {
            let ghost t0 = map@;
            if idx >= map.len() {
                map.resize(idx + 1, 0xFFFF_FFFF);
            }
            let cid = if id < 0xFFFF { id } else { 0xFFFF };
            let v = (map[idx] & 0xFFFF_0000) | cid;
            map.set(idx, v);
            proof {
                assert(map@ =~= pairs_set(t0, idx as int, 0xFFFF_0000, clamp_id(id)));
            }
        }
    }

    /// Stores board-text id `id` (at most 0xFFFF, which means none) for node
    /// `idx`, growing the list of pairs with empty ones to reach it.
    pub fn set_text_id(&mut self, idx: usize, id: u32)
        requires
            idx < usize::MAX,
        ensures
            match old(self).node_texts {
                Some(t) => final(self).node_texts is Some && final(self).node_texts->0@ == pairs_set(
                    t@,
                    idx as int,
                    0x0000_FFFF,
                    clamp_id(id) << 16u32,
                ),
                None => final(self).node_texts is None,
            },
            final(self).same_library_but_texts(old(self)),
    {
        if let Some(map) = &mut self.node_texts {
            let ghost t0 = map@;
            if idx >= map.len() {
                map.resize(idx + 1, 0xFFFF_FFFF);
            }
            let tid = if id < 0xFFFF { id } else { 0xFFFF };
            let v = (map[idx] & 0x0000_FFFF) | (tid << 16);
            map.set(idx, v);
            proof {
                assert(map@ =~= pairs_set(t0, idx as int, 0x0000_FFFF, clamp_id(id) << 16u32));
            }
        }
    }

    /// Everything but the pairs of text ids is the same in `self` and `o`.
    pub open spec fn same_library_but_texts(&self, o: &Self) -> bool {
        &&& self.board == o.board
        &&& self.lib_nodes == o.lib_nodes
        &&& self.hash_table == o.hash_table
        &&& self.text_pool == o.text_pool
        &&& self.current_node_idx == o.current_node_idx
        &&& self.is_db_mode == o.is_db_mode
        &&& self.node_to_delete == o.node_to_delete
        &&& self.text_encoding == o.text_encoding
        &&& self.max_nodes == o.max_nodes
        &&& self.vcf_solution == o.vcf_solution
        &&& self.vcf_status == o.vcf_status
        &&& self.vcf_solving == o.vcf_solving
        &&& self.forbidden_points_board == o.forbidden_points_board
        &&& self.forbidden_points == o.forbidden_points
        &&& self.forbidden_points_valid == o.forbidden_points_valid
        &&& self.subtree_cache == o.subtree_cache
    }

    /// The comment of node `idx`, decoded in the text encoding: `None` when
    /// it has none or the pool lacks it.
    pub fn decode_comment(&self, idx: usize) -> (r: Option<String>)
        requires
            self.wf(),
        ensures
            ({
                let cid = match self.node_texts {
                    Some(t) => comment_part(pair_at(t@, idx as int)),
                    None => NO_TEXT,
                };
                match r {
                    Some(s) => cid != NO_TEXT && self.text_pool is Some && cid < self.text_pool->0.texts().len()
                        && s@ == decoded(self.text_encoding, self.text_pool->0.texts()[cid as int]),
                    None => cid == NO_TEXT || self.text_pool is None || cid >= self.text_pool->0.texts().len(),
                }
            }),
    {
        let cid = self.get_comment_id(idx);
        if cid == NO_TEXT {
            return None;
        }
        match &self.text_pool {
            Some(pool) => match pool.get(cid) {
                Some(b) => Some(decode_text(self.text_encoding, b)),
                None => None,
            },
            None => None,
        }
    }

    /// The board text of node `idx`, decoded in the text encoding: `None`
    /// when it has none or the pool lacks it.
    pub fn decode_text(&self, idx: usize) -> (r: Option<String>)
        requires
            self.wf(),
        ensures
            ({
                let tid = match self.node_texts {
                    Some(t) => text_part(pair_at(t@, idx as int)),
                    None => NO_TEXT,
                };
                match r {
                    Some(s) => tid != NO_TEXT && self.text_pool is Some && tid < self.text_pool->0.texts().len()
                        && s@ == decoded(self.text_encoding, self.text_pool->0.texts()[tid as int]),
                    None => tid == NO_TEXT || self.text_pool is None || tid >= self.text_pool->0.texts().len(),
                }
            }),
    {
        let tid = self.get_text_id(idx);
        if tid == NO_TEXT {
            return None;
        }
        match &self.text_pool {
            Some(pool) => match pool.get(tid) {
                Some(b) => Some(decode_text(self.text_encoding, b)),
                None => None,
            },
            None => None,
        }
    }
}

/// Storing a comment id below 0xFFFF for a node and reading it back gives
/// that id, and leaves the node's board-text id as it was.
pub proof fn lemma_comment_id_roundtrip(t: Seq<u32>, idx: int, id: u32)
    requires
        0 <= idx,
        id < 0xFFFF,
    ensures
        comment_part(pair_at(pairs_set(t, idx, 0xFFFF_0000, clamp_id(id)), idx)) == id,
        text_part(pair_at(pairs_set(t, idx, 0xFFFF_0000, clamp_id(id)), idx)) == text_part(pair_at(t, idx)),
        forall|j: int| 0 <= j && j != idx ==> #[trigger] pair_at(pairs_set(t, idx, 0xFFFF_0000, clamp_id(id)), j) == pair_at(t, j),
{
    let p = pair_at(t, idx);
    assert(pair_at(pairs_set(t, idx, 0xFFFF_0000, clamp_id(id)), idx) == (p & 0xFFFF_0000) | id);
    assert(((p & 0xFFFF_0000) | id) & 0xFFFF == id && id < 0xFFFF) by (bit_vector)
        requires
            id < 0xFFFF,
    ;
    assert((((p & 0xFFFF_0000) | id) >> 16u32) & 0xFFFF == (p >> 16u32) & 0xFFFF) by (bit_vector)
        requires
            id < 0xFFFF,
    ;
    assert forall|j: int| 0 <= j && j != idx implies #[trigger] pair_at(pairs_set(t, idx, 0xFFFF_0000, clamp_id(id)), j) == pair_at(t, j) by {
        if j >= t.len() && j >= idx + 1 {
        }
    }
}

/// Storing a board-text id below 0xFFFF for a node and reading it back
/// gives that id, and leaves the node's comment id as it was.
pub proof fn lemma_text_id_roundtrip(t: Seq<u32>, idx: int, id: u32)
    requires
        0 <= idx,
        id < 0xFFFF,
    ensures
        text_part(pair_at(pairs_set(t, idx, 0x0000_FFFF, clamp_id(id) << 16u32), idx)) == id,
        comment_part(pair_at(pairs_set(t, idx, 0x0000_FFFF, clamp_id(id) << 16u32), idx)) == comment_part(pair_at(t, idx)),
        forall|j: int| 0 <= j && j != idx ==> #[trigger] pair_at(pairs_set(t, idx, 0x0000_FFFF, clamp_id(id) << 16u32), j) == pair_at(t, j),
{
    let p = pair_at(t, idx);
    assert(pair_at(pairs_set(t, idx, 0x0000_FFFF, clamp_id(id) << 16u32), idx) == (p & 0x0000_FFFF) | (id << 16u32));
    assert((((p & 0x0000_FFFF) | (id << 16u32)) >> 16u32) & 0xFFFF == id) by (bit_vector)
        requires
            id < 0xFFFF,
    ;
    assert(((p & 0x0000_FFFF) | (id << 16u32)) & 0xFFFF == p & 0xFFFF) by (bit_vector)
        requires
            id < 0xFFFF,
    ;
    assert forall|j: int| 0 <= j && j != idx implies #[trigger] pair_at(pairs_set(t, idx, 0x0000_FFFF, clamp_id(id) << 16u32), j) == pair_at(t, j) by {
    }
}


impl RenjuApp {
    /// Goes back to the start. A database takes every move back. In a tree
    /// the walk climbs from the node shown towards the root, taking back one
    /// move per node left that carries one; past a node without parent (or
    /// without a tree) every move is taken back and the root is shown. A
    /// walk longer than the tree, possible only with a cycle of parent
    /// links, stops there.
    pub fn reset_to_root(&mut self)
        requires
            old(self).wf(),
        ensures
            final(self).wf(),
            final(self).same_library(old(self)),
            final(self).solution_cleared(old(self)),
            old(self).is_db_mode || old(self).lib_nodes is None ==> cleared(old(self).board@, final(self).board@)
                && final(self).current_node_idx == (if old(self).is_db_mode { old(self).current_node_idx } else {
                old(self).current_node_idx }),
            !old(self).is_db_mode && old(self).lib_nodes is Some ==> ({
                let nodes = old(self).lib_nodes->0@;
                match old(self).current_node_idx {
                    Some(idx) => {
                        let c = climb(nodes, idx as int, nodes.len());
                        match c.1 {
                            Some(end) => final(self).current_node_idx == Some(end as usize) && final(self).board@
                                == undone_times(old(self).board@, c.0),
                            None => final(self).current_node_idx == Some(0usize) && cleared(
                                undone_times(old(self).board@, c.0),
                                final(self).board@,
                            ),
                        }
                    },
                    None => final(self).current_node_idx == Some(0usize) && cleared(
                        old(self).board@,
                        final(self).board@,
                    ),
                }
            }),
    {
        if self.is_db_mode {
            self.board.undo_all();
        } else if let Some(nodes) = &self.lib_nodes {
            let n = nodes.len();
            let mut steps: usize = 0;
            let ghost b0 = self.board@;
            let mut undone: Ghost<nat> = Ghost(0);
            let ghost start = self.current_node_idx;
            while steps < n
                invariant
                    self.board@.wf(),
                    self.same_library(old(self)),
                    !self.is_db_mode,
                    self.vcf_solving == old(self).vcf_solving,
                    self.vcf_status == old(self).vcf_status,
                    old(self).lib_nodes == Some(*nodes),
                    nodes@.len() == n,
                    links_ok(nodes@),
                    n < NO_NODE,
                    steps <= n,
                    self.board@ == undone_times(b0, undone@),
                    start is Some ==> ({
                        let c0 = climb(nodes@, start->0 as int, n as nat);
                        match self.current_node_idx {
                            Some(cur) => cur < n && ({
                                let c = climb(nodes@, cur as int, (n - steps) as nat);
                                c0.1 == c.1 && c0.0 == undone@ + c.0
                            }),
                            None => c0.1 is None && c0.0 == undone@,
                        }
                    }),
                    start is None ==> self.current_node_idx is None && undone@ == 0,
                ensures
                    self.current_node_idx is None || self.current_node_idx->0 == 0 || steps == n,
                decreases n - steps,
            {
                let idx = match self.current_node_idx {
                    Some(i) => i,
                    None => {
                        break;
                    },
                };
                if idx == 0 {
                    break;
                }
                let node = &nodes[idx];
                if node.x() >= 0 && node.y() >= 0 {
                    self.board.undo();
                    proof {
                        undone@ = undone@ + 1;
                    }
                }
                if node.parent != NO_NODE {
                    self.current_node_idx = Some(node.parent as usize);
                } else {
                    self.current_node_idx = None;
                }
                steps += 1;
            }
            if self.current_node_idx.is_none() {
                self.current_node_idx = Some(0);
                self.board.undo_all();
            }
        } else {
            self.board.undo_all();
        }
        self.clear_vcf_solution();
    }
}


/// The first node on (x, y) in the sibling chain from `first` (see
/// `find_child`, with the tree's size as fuel).
pub(crate) fn find_child_exec(nodes: &Vec<RenLibNode>, first: u32, x: i8, y: i8) -> (r: Option<usize>)
    requires
        links_ok(nodes@),
        first == NO_NODE || first < nodes@.len(),
    ensures
        match r {
            Some(c) => find_child(nodes@, first, nodes@.len(), x, y) == Some(c as int) && c < nodes@.len(),
            None => find_child(nodes@, first, nodes@.len(), x, y) is None,
        },
{
    let n = nodes.len();
    let mut c = first;
    let mut steps: usize = 0;
    while steps < n && c != NO_NODE
        invariant
            links_ok(nodes@),
            n == nodes@.len(),
            steps <= n,
            c == NO_NODE || c < n,
            find_child(nodes@, first, n as nat, x, y) == find_child(nodes@, c, (n - steps) as nat, x, y),
        decreases n - steps,
    {
        let node = &nodes[c as usize];
        if node.x() == x && node.y() == y {
            return Some(c as usize);
        }
        c = node.sibling;
        steps += 1;
    }
    None
}

/// The node `n` with its first child set to `child`.
pub open spec fn with_child(n: RenLibNode, child: u32) -> RenLibNode {
    RenLibNode { hash: n.hash, parent: n.parent, child: child, sibling: n.sibling, move_info: n.move_info }
}

impl RenjuApp {
    /// What `play_move(ux, uy)` makes of the viewer `o` (board, tree, table
    /// and node shown); `self` is the result.
    pub open spec fn moved_from(&self, o: &Self, ux: usize, uy: usize) -> bool {
        let b = o.board@;
        let x = ux as i8;
        let y = uy as i8;
        let placed = if b.can_place(ux as int, uy as int) { b.placed(ux as int, uy as int) } else { b };
        if o.is_db_mode || o.lib_nodes is None || o.current_node_idx is None {
            &&& self.board@ == if o.is_db_mode { placed } else { b }
            &&& self.lib_nodes == o.lib_nodes
            &&& self.hash_table == o.hash_table
            &&& self.current_node_idx == o.current_node_idx
        } else {
            let nodes = o.lib_nodes->0@;
            let idx = o.current_node_idx->0 as int;
            match find_child(nodes, nodes[idx].child, nodes.len(), x, y) {
                Some(c) => {
                    &&& self.board@ == placed
                    &&& self.lib_nodes == o.lib_nodes
                    &&& self.hash_table == o.hash_table
                    &&& self.current_node_idx == Some(c as usize)
                },
                None => if b.can_place(ux as int, uy as int) && nodes.len() + 1 < NO_NODE {
                    let h = position_hash(placed.history);
                    let fresh = self.lib_nodes->0@[nodes.len() as int];
                    &&& self.board@ == placed
                    &&& self.lib_nodes is Some
                    &&& self.lib_nodes->0@ == nodes.update(idx, with_child(nodes[idx], nodes.len() as u32)).push(fresh)
                    &&& fresh.spec_x() == x && fresh.spec_y() == y
                    &&& fresh.parent == idx as u32 && fresh.child == NO_NODE && fresh.sibling == nodes[idx].child
                    &&& fresh.hash == h
                    &&& fresh.spec_depth() == (nodes[idx].spec_depth() + 1) % 256
                    &&& self.current_node_idx == Some(nodes.len() as usize)
                    &&& match o.hash_table {
                        Some(t) => self.hash_table is Some && self.hash_table->0@ == t@.insert(h, nodes.len() as u32),
                        None => self.hash_table is None,
                    }
                } else {
                    &&& self.board@ == placed
                    &&& self.lib_nodes == o.lib_nodes
                    &&& self.hash_table == o.hash_table
                    &&& self.current_node_idx == o.current_node_idx
                },
            }
        }
    }

    /// Plays (ux, uy). A database just places the stone; without a tree or
    /// a node shown nothing happens. In a tree, a child
    /// of the node shown on that cell becomes the node shown (its stone
    /// placed if the cell is free); otherwise, if the stone can go there, it
    /// is placed and a new node for it becomes the first child of the node
    /// shown (the former first child its sibling), filed in the hash table
    /// under the canonical hash of the new position, and shown. A move that
    /// changes the board clears the solution shown.
    pub fn play_move(&mut self, ux: usize, uy: usize)
        requires
            old(self).wf(),
            uy * 15 + ux <= usize::MAX,
        ensures
            final(self).wf(),
            final(self).node_texts == old(self).node_texts,
            final(self).text_pool == old(self).text_pool,
            final(self).is_db_mode == old(self).is_db_mode,
            final(self).node_to_delete == old(self).node_to_delete,
            final(self).text_encoding == old(self).text_encoding,
            final(self).max_nodes == old(self).max_nodes,
            final(self).vcf_solving == old(self).vcf_solving,
            final(self).forbidden_points_board == old(self).forbidden_points_board,
            final(self).forbidden_points == old(self).forbidden_points,
            final(self).forbidden_points_valid == old(self).forbidden_points_valid,
            final(self).board@.history.len() != old(self).board@.history.len() ==> final(self).solution_cleared(old(self)),
            final(self).board@.history.len() == old(self).board@.history.len() ==> final(self).vcf_solution == old(self).vcf_solution
        && final(self).vcf_status == old(self).vcf_status,
            final(self).moved_from(old(self), ux, uy),
    {
        let before_len = self.board.history.len();
        if self.is_db_mode {
            self.board.place_stone(ux, uy);
        } else if let Some(nodes) = &mut self.lib_nodes {
            if let Some(idx) = self.current_node_idx {
        let x = ux as i8;
        let y = uy as i8;
        let first = nodes[idx].child;
        match find_child_exec(nodes, first, x, y) {
            Some(c) => {
                self.current_node_idx = Some(c);
                self.board.place_stone(ux, uy);
            },
            None => {
                if self.board.place_stone(ux, uy) {
                    if nodes.len() < 0xFFFF_FFFE {
                        let new_hash = history_hash(&self.board.history);
                        let new_idx = nodes.len();
                        let parent_node = nodes[idx];
                        let depth = parent_node.depth().wrapping_add(1);
                        let fresh = RenLibNode::new(x, y, idx as u32, NO_NODE, parent_node.child, new_hash, depth);
                        let linked = RenLibNode {
                            hash: parent_node.hash,
                            parent: parent_node.parent,
                            child: new_idx as u32,
                            sibling: parent_node.sibling,
                            move_info: parent_node.move_info,
                        };
                        nodes.set(idx, linked);
                        nodes.push(fresh);
                        self.subtree_cache = Vec::new();
                        self.current_node_idx = Some(new_idx);
                        if let Some(ht) = &mut self.hash_table {
                            id_map_insert(ht, new_hash, new_idx as u32);
                        }
                    }
                }
            },
        }
            }
        }
        if self.board.history.len() != before_len {
            self.clear_vcf_solution();
        }
    }
}


/// The empty cells whose stone would reach a position of `table`, in
/// increasing order (see `db_moves`).
fn db_moves_exec(board: &Board, table: &FxHashMap<u64, u32>) -> (r: Vec<usize>)
    requires
        board@.wf(),
        board@.history.len() < usize::MAX,
    ensures
        r@ == db_moves(board@.grid, board@.history, table@, 225),
{
    let pb = history_board(&board.history);
    let mut r: Vec<usize> = Vec::new();
    let mut i: usize = 0;
    while i < 225
        invariant
            i <= 225,
            board@.wf(),
            board@.history.len() < usize::MAX,
            pb.hashes_of(history_stones(board@.history)),
            pb.move_count == board@.history.len(),
            r@ == db_moves(board@.grid, board@.history, table@, i as nat),
        decreases 225 - i,
    {
        if board.grid[i].is_none() {
            let mut pb2 = pb;
            pb2.make_move((i % 15) as i8, (i / 15) as i8);
            let h = pb2.get_canonical_hash();
            proof {
                let hist = board@.history;
                assert(on_board((i % 15) as i8 as int, (i / 15) as i8 as int));
                lemma_placed_hashes(
                    pb,
                    pb2,
                    history_stones(hist),
                    (i % 15) as i8 as int,
                    (i / 15) as i8 as int,
                    (hist.len() % 2) as int,
                );
                assert(history_stones(hist.push(i)) =~= history_stones(hist).push(
                    ((i % 15) as int, (i / 15) as int, (hist.len() % 2) as int),
                ));
                lemma_canonical_of(pb2, hist.push(i), h);
            }
            if id_map_get(table, h).is_some() {
                r.push(i);
            }
        }
        i += 1;
    }
    r
}

impl RenjuApp {
    /// What `step_forward` makes of the viewer `o` (board and node shown),
    /// `moved` being what it answered; `self` is the result.
    pub open spec fn stepped_forward_from(&self, o: &Self, moved: bool) -> bool {
        let b = o.board@;
        if b.future.len() > 0 {
            let next = b.future.last();
            &&& moved
            &&& self.board@ == b.redone()
            &&& self.current_node_idx == if !o.is_db_mode && o.lib_nodes is Some
                && o.current_node_idx is Some {
                let nodes = o.lib_nodes->0@;
                let idx = o.current_node_idx->0 as int;
                match find_child(nodes, nodes[idx].child, nodes.len(), (next % 15) as i8, (next / 15) as i8) {
                    Some(c) => Some(c as usize),
                    None => o.current_node_idx,
                }
            } else {
                o.current_node_idx
            }
        } else if o.is_db_mode {
            let moves = match o.hash_table {
                Some(t) => db_moves(b.grid, b.history, t@, 225),
                None => Seq::empty(),
            };
            &&& moved <==> moves.len() == 1 && b.history.len() < usize::MAX
            &&& moved ==> self.board@ == b.placed((moves[0] % 15) as int, (moves[0] / 15) as int)
                && self.current_node_idx == o.current_node_idx
        } else {
            let go = o.lib_nodes is Some && o.current_node_idx is Some && ({
                let nodes = o.lib_nodes->0@;
                let first = nodes[o.current_node_idx->0 as int].child;
                &&& first != NO_NODE
                &&& nodes[first as int].sibling == NO_NODE
                &&& nodes[first as int].spec_x() >= 0 && nodes[first as int].spec_y() >= 0
            });
            &&& moved <==> go
            &&& moved ==> ({
                let nodes = o.lib_nodes->0@;
                let first = nodes[o.current_node_idx->0 as int].child;
                let x = nodes[first as int].spec_x() as int;
                let y = nodes[first as int].spec_y() as int;
                &&& self.current_node_idx == Some(first as usize)
                &&& self.board@ == if b.can_place(x, y) { b.placed(x, y) } else { b }
            })
        }
    }
}

impl RenjuApp {
    /// Steps one move forward. A move taken back is replayed first (in a
    /// tree the child of the node shown on that cell, if any, becomes the
    /// node shown). Otherwise a database plays the one empty cell whose
    /// position it holds, if exactly one does, and a tree follows the only
    /// child of the node shown, if it has exactly one and that one carries a
    /// move. Says whether it moved; a step clears the solution shown.
    pub fn step_forward(&mut self) -> (moved: bool)
        requires
            old(self).wf(),
        ensures
            final(self).wf(),
            final(self).same_library(old(self)),
            moved ==> final(self).solution_cleared(old(self)),
            !moved ==> final(self).board == old(self).board && final(self).current_node_idx == old(self).current_node_idx
                && final(self).vcf_solution == old(self).vcf_solution && final(self).vcf_status == old(self).vcf_status,
            final(self).stepped_forward_from(old(self), moved),
    {
        let nf = self.board.future_history.len();
        if nf > 0 {
            let next_pos = self.board.future_history[nf - 1];
            self.board.redo();
            if !self.is_db_mode {
                if let Some(nodes) = &self.lib_nodes {
                    if let Some(idx) = self.current_node_idx {
                        let first = nodes[idx].child;
                        match find_child_exec(nodes, first, (next_pos % 15) as i8, (next_pos / 15) as i8) {
                            Some(c) => {
                                self.current_node_idx = Some(c);
                            },
                            None => {},
                        }
                    }
                }
            }
            self.clear_vcf_solution();
            return true;
        }
        if self.is_db_mode {
            if self.board.history.len() < usize::MAX {
                let moves = match &self.hash_table {
                    Some(t) => db_moves_exec(&self.board, t),
                    None => Vec::new(),
                };
                if moves.len() == 1 {
                    let m = moves[0];
                    proof {
                        assert(m < 225) by {
                            lemma_db_moves_cells(self.board@.grid, self.board@.history, self.hash_table->0@, 225);
                        }
                    }
                    self.board.place_stone(m % 15, m / 15);
                    proof {
                        assert(self.board@ == old(self).board@.placed((m % 15) as int, (m / 15) as int)) by {
                            lemma_db_moves_cells(old(self).board@.grid, old(self).board@.history, old(self).hash_table->0@, 225);
                            assert((m / 15) * 15 + m % 15 == m);
                        }
                    }
                    self.clear_vcf_solution();
                    return true;
                }
            }
        } else {
            if let Some(nodes) = &self.lib_nodes {
                if let Some(idx) = self.current_node_idx {
                    let first = nodes[idx].child;
                    if first != NO_NODE && nodes[first as usize].sibling == NO_NODE {
                        let n = nodes[first as usize];
                        if n.x() >= 0 && n.y() >= 0 {
                            self.board.place_stone(n.x() as usize, n.y() as usize);
                            self.current_node_idx = Some(first as usize);
                            self.clear_vcf_solution();
                            return true;
                        }
                    }
                }
            }
        }
        false
    }
}

/// Every cell listed by `db_moves` is an empty cell below `n`.
proof fn lemma_db_moves_cells(grid: Seq<Option<Player>>, history: Seq<usize>, table: Map<u64, u32>, n: nat)
    requires
        n <= 225,
    ensures
        forall|k: int| 0 <= k < db_moves(grid, history, table, n).len() ==> {
            &&& #[trigger] db_moves(grid, history, table, n)[k] < n
            &&& grid[db_moves(grid, history, table, n)[k] as int] == None::<Player>
        },
    decreases n,
{
    if n > 0 {
        lemma_db_moves_cells(grid, history, table, (n - 1) as nat);
    }
}


/// The nodes met from `c` through first-child and next-sibling links,
/// following at most `fuel` links in a row.
pub open spec fn reach(nodes: Seq<RenLibNode>, c: u32, fuel: nat) -> Set<int>
    decreases fuel,
{
    if fuel == 0 || c == NO_NODE || c >= nodes.len() {
        Set::empty()
    } else {
        Set::empty().insert(c as int).union(reach(nodes, nodes[c as int].child, (fuel - 1) as nat)).union(
            reach(nodes, nodes[c as int].sibling, (fuel - 1) as nat),
        )
    }
}

/// How many nodes that walk meets, a node met twice counted twice (in a
/// tree, the number of nodes of `reach`).
pub open spec fn reach_count(nodes: Seq<RenLibNode>, c: u32, fuel: nat) -> nat
    decreases fuel,
{
    if fuel == 0 || c == NO_NODE || c >= nodes.len() {
        0
    } else {
        1 + reach_count(nodes, nodes[c as int].child, (fuel - 1) as nat) + reach_count(
            nodes,
            nodes[c as int].sibling,
            (fuel - 1) as nat,
        )
    }
}

/// The nodes still to be met from the walks waiting on a stack.
pub open spec fn pending_reach(nodes: Seq<RenLibNode>, s: Seq<(u32, usize)>) -> Set<int>
    decreases s.len(),
{
    if s.len() == 0 {
        Set::empty()
    } else {
        reach(nodes, s.last().0, s.last().1 as nat).union(pending_reach(nodes, s.drop_last()))
    }
}

/// How many meetings the walks waiting on a stack still make.
pub open spec fn pending_count(nodes: Seq<RenLibNode>, s: Seq<(u32, usize)>) -> nat
    decreases s.len(),
{
    if s.len() == 0 {
        0
    } else {
        reach_count(nodes, s.last().0, s.last().1 as nat) + pending_count(nodes, s.drop_last())
    }
}

/// The size of the work waiting on a stack: 3 to the power of each walk's fuel.
pub open spec fn stack_weight(s: Seq<(u32, usize)>) -> nat
    decreases s.len(),
{
    if s.len() == 0 {
        0
    } else {
        pow3(s.last().1 as nat) + stack_weight(s.drop_last())
    }
}

proof fn lemma_stack_push(nodes: Seq<RenLibNode>, s: Seq<(u32, usize)>, e: (u32, usize))
    ensures
        pending_reach(nodes, s.push(e)) == reach(nodes, e.0, e.1 as nat).union(pending_reach(nodes, s)),
        pending_count(nodes, s.push(e)) == reach_count(nodes, e.0, e.1 as nat) + pending_count(nodes, s),
        stack_weight(s.push(e)) == pow3(e.1 as nat) + stack_weight(s),
{
    assert(s.push(e).drop_last() =~= s);
}

/// Walks from `first` through first-child and next-sibling links (at most
/// the tree's size in a row): which nodes it meets, and how many meetings
/// (at most `usize::MAX`).
fn walk_links(nodes: &Vec<RenLibNode>, first: u32) -> (r: (Vec<bool>, usize))
    requires
        links_ok(nodes@),
        first == NO_NODE || first < nodes@.len(),
    ensures
        r.0@.len() == nodes@.len(),
        forall|j: int| 0 <= j < nodes@.len() ==> (r.0@[j] <==> reach(nodes@, first, nodes@.len()).contains(j)),
        r.1 as int == if reach_count(nodes@, first, nodes@.len()) < usize::MAX {
            reach_count(nodes@, first, nodes@.len()) as int
        } else {
            usize::MAX as int
        },
{
    let n = nodes.len();
    let ghost ns = nodes@;
    let ghost all = reach(ns, first, n as nat);
    let ghost total = reach_count(ns, first, n as nat);
    let mut marks: Vec<bool> = Vec::new();
    let mut i: usize = 0;
    while i < n
        invariant
            i <= n,
            marks@.len() == i,
            forall|j: int| 0 <= j < i ==> !marks@[j],
        decreases n - i,
    {
        marks.push(false);
        i += 1;
    }
    let mut count: usize = 0;
    let mut stack: Vec<(u32, usize)> = Vec::new();
    stack.push((first, n));
    proof {
        lemma_stack_push(ns, Seq::empty(), (first, n));
        assert(Seq::<(u32, usize)>::empty().push((first, n)) =~= stack@);
        assert(pending_reach(ns, Seq::empty()) == Set::<int>::empty());
        assert(pending_reach(ns, stack@) =~= all);
    }
    while stack.len() > 0
        invariant
            ns == nodes@,
            n == ns.len(),
            links_ok(ns),
            marks@.len() == n,
            all == reach(ns, first, n as nat),
            total == reach_count(ns, first, n as nat),
            forall|k: int| 0 <= k < stack@.len() ==> (#[trigger] stack@[k]).0 == NO_NODE || stack@[k].0 < n,
            forall|j: int| 0 <= j < n ==> (marks@[j] ==> all.contains(j)),
            forall|j: int| pending_reach(ns, stack@).contains(j) ==> all.contains(j),
            forall|j: int| 0 <= j < n && all.contains(j) ==> marks@[j] || pending_reach(ns, stack@).contains(j),
            (count < usize::MAX && count + pending_count(ns, stack@) == total) || (count == usize::MAX && total
                >= usize::MAX),
        decreases stack_weight(stack@),
    {
        let ghost before = stack@;
        let (c, f) = stack.pop().unwrap();
        let ghost rest = stack@;
        proof {
            assert(before =~= rest.push((c, f)));
            lemma_stack_push(ns, rest, (c, f));
            lemma_pow3_pos(f as nat);
        }
        if f > 0 && c != NO_NODE {
            let node = nodes[c as usize];
            let ghost m0 = marks@;
            marks.set(c as usize, true);
            count = if count < usize::MAX { count + 1 } else { count };
            stack.push((node.sibling, f - 1));
            let ghost mid = stack@;
            stack.push((node.child, f - 1));
            proof {
                lemma_stack_push(ns, rest, (node.sibling, (f - 1) as usize));
                lemma_stack_push(ns, mid, (node.child, (f - 1) as usize));
                lemma_pow3_pos((f - 1) as nat);
                assert(pow3(f as nat) == 3 * pow3((f - 1) as nat));
                assert(reach(ns, c, f as nat) == Set::empty().insert(c as int).union(
                    reach(ns, node.child, (f - 1) as nat),
                ).union(reach(ns, node.sibling, (f - 1) as nat)));
                assert forall|k: int| 0 <= k < stack@.len() implies (#[trigger] stack@[k]).0 == NO_NODE || stack@[k].0 < n by {
                    if k < rest.len() {
                        assert(stack@[k] == rest[k]);
                        assert(rest[k] == before[k]);
                    }
                }
                assert forall|j: int| 0 <= j < n && all.contains(j) implies marks@[j] || pending_reach(ns, stack@).contains(j) by {
                    if j != c as int {
                        assert(marks@[j] == m0[j]);
                    }
                }
            }
        } else {
            proof {
                assert(reach(ns, c, f as nat) == Set::<int>::empty());
                assert(reach_count(ns, c, f as nat) == 0);
                assert forall|k: int| 0 <= k < stack@.len() implies (#[trigger] stack@[k]).0 == NO_NODE || stack@[k].0 < n by {
                    assert(stack@[k] == before[k]);
                }
            }
        }
    }
    (marks, count)
}


/// `b` is node `a` marked deleted: its move set to (-2, -2), all else kept.
pub open spec fn erased(a: RenLibNode, b: RenLibNode) -> bool {
    &&& b.spec_x() == -2 && b.spec_y() == -2
    &&& b.spec_depth() == a.spec_depth()
    &&& info_rest(b.move_info) == info_rest(a.move_info)
    &&& b.hash == a.hash && b.parent == a.parent && b.child == a.child && b.sibling == a.sibling
}

/// Marks a node deleted.
fn erase(node: &mut RenLibNode)
    ensures
        erased(*old(node), *final(node)),
{
    node.set_x(-2);
    node.set_y(-2);
}

/// The parents met going up from `idx` towards the root, at most `fuel`
/// steps (the root is the last, when reached).
pub open spec fn path_parents(nodes: Seq<RenLibNode>, idx: int, fuel: nat) -> Set<int>
    decreases fuel,
{
    if fuel == 0 || idx == 0 || !(0 <= idx < nodes.len()) || nodes[idx].parent == NO_NODE {
        Set::empty()
    } else {
        Set::empty().insert(nodes[idx].parent as int).union(path_parents(nodes, nodes[idx].parent as int, (fuel - 1) as nat))
    }
}

/// The parents met going up from `idx` (see `path_parents`, with the
/// tree's size as fuel), as marks.
fn mark_path(nodes: &Vec<RenLibNode>, idx: usize) -> (marks: Vec<bool>)
    requires
        links_ok(nodes@),
        idx < nodes@.len(),
    ensures
        marks@.len() == nodes@.len(),
        forall|j: int| 0 <= j < nodes@.len() ==> (marks@[j] <==> path_parents(nodes@, idx as int, nodes@.len()).contains(j)),
{
    let n = nodes.len();
    let ghost all = path_parents(nodes@, idx as int, n as nat);
    let mut marks: Vec<bool> = Vec::new();
    let mut i: usize = 0;
    while i < n
        invariant
            i <= n,
            marks@.len() == i,
            forall|j: int| 0 <= j < i ==> !marks@[j],
        decreases n - i,
    {
        marks.push(false);
        i += 1;
    }
    let mut curr = idx;
    let mut steps: usize = 0;
    while steps < n && curr != 0
        invariant
            n == nodes@.len(),
            links_ok(nodes@),
            steps <= n,
            curr < n,
            marks@.len() == n,
            all == path_parents(nodes@, idx as int, n as nat),
            forall|j: int| 0 <= j < n ==> (marks@[j] ==> all.contains(j)),
            forall|j: int| 0 <= j < n ==> (all.contains(j) ==> marks@[j] || path_parents(nodes@, curr as int, (n - steps) as nat).contains(j)),
            forall|j: int| path_parents(nodes@, curr as int, (n - steps) as nat).contains(j) ==> all.contains(j),
        ensures
            forall|j: int| 0 <= j < n ==> (all.contains(j) ==> marks@[j]),
            forall|j: int| 0 <= j < n ==> (marks@[j] ==> all.contains(j)),
        decreases n - steps,
    {
        let p = nodes[curr].parent;
        if p == NO_NODE {
            break;
        }
        let ghost m0 = marks@;
        marks.set(p as usize, true);
        proof {
            assert forall|j: int| 0 <= j < n && all.contains(j) implies marks@[j] || path_parents(nodes@, p as int, (n - steps - 1) as nat).contains(j) by {
                if j != p as int {
                    assert(marks@[j] == m0[j]);
                }
            }
        }
        curr = p as usize;
        steps += 1;
    }
    marks
}

/// The node before `idx` in the sibling chain from `curr` (at most `fuel`
/// links followed), if `idx` is found there.
pub open spec fn chain_before(nodes: Seq<RenLibNode>, curr: u32, fuel: nat, idx: u32) -> Option<int>
    decreases fuel,
{
    if fuel == 0 || curr >= nodes.len() || nodes[curr as int].sibling == NO_NODE {
        None
    } else if nodes[curr as int].sibling == idx {
        Some(curr as int)
    } else {
        chain_before(nodes, nodes[curr as int].sibling, (fuel - 1) as nat, idx)
    }
}

/// The node `chain_before` finds is a node of the tree.
proof fn lemma_chain_before_range(nodes: Seq<RenLibNode>, curr: u32, fuel: nat, idx: u32)
    ensures
        chain_before(nodes, curr, fuel, idx) matches Some(q) ==> 0 <= q < nodes.len(),
    decreases fuel,
{
    if !(fuel == 0 || curr >= nodes.len() || nodes[curr as int].sibling == NO_NODE) && nodes[curr as int].sibling != idx {
        lemma_chain_before_range(nodes, nodes[curr as int].sibling, (fuel - 1) as nat, idx);
    }
}

/// Taking a node out of its parent's children keeps the number of nodes.
proof fn lemma_unlinked_len(nodes: Seq<RenLibNode>, idx: int)
    requires
        0 <= idx < nodes.len(),
    ensures
        unlinked(nodes, idx).len() == nodes.len(),
{
    let p = nodes[idx].parent;
    if p != NO_NODE && p < nodes.len() && nodes[p as int].child != idx as u32 {
        lemma_chain_before_range(nodes, nodes[p as int].child, nodes.len(), idx as u32);
    }
}

/// Taking a node out of its parent's children keeps every link in range.
proof fn lemma_unlinked_links(nodes: Seq<RenLibNode>, idx: int)
    requires
        0 <= idx < nodes.len(),
        links_ok(nodes),
    ensures
        links_ok(unlinked(nodes, idx)),
        forall|i: int| 0 <= i < nodes.len() ==> #[trigger] unlinked(nodes, idx)[i].parent == nodes[i].parent,
{
    lemma_unlinked_len(nodes, idx);
    let p = nodes[idx].parent;
    if p != NO_NODE && p < nodes.len() && nodes[p as int].child != idx as u32 {
        lemma_chain_before_range(nodes, nodes[p as int].child, nodes.len(), idx as u32);
    }
    let u = unlinked(nodes, idx);
    assert forall|i: int| 0 <= i < u.len() implies #[trigger] u[i].parent == nodes[i].parent by {}
    assert forall|i: int| 0 <= i < u.len() implies {
        &&& (#[trigger] u[i]).parent == NO_NODE || u[i].parent < u.len()
        &&& u[i].child == NO_NODE || u[i].child < u.len()
        &&& u[i].sibling == NO_NODE || u[i].sibling < u.len()
    } by {
        assert(nodes[i].parent == NO_NODE || nodes[i].parent < nodes.len());
    }
}

/// The node `n` with its next sibling set to `sibling`.
pub open spec fn with_sibling(n: RenLibNode, sibling: u32) -> RenLibNode {
    RenLibNode { hash: n.hash, parent: n.parent, child: n.child, sibling: sibling, move_info: n.move_info }
}

/// The tree with node `idx` taken out of its parent's list of children
/// (its next sibling taking its place).
pub open spec fn unlinked(nodes: Seq<RenLibNode>, idx: int) -> Seq<RenLibNode> {
    let p = nodes[idx].parent;
    let next = nodes[idx].sibling;
    if p == NO_NODE || p >= nodes.len() {
        nodes
    } else if nodes[p as int].child == idx as u32 {
        nodes.update(p as int, with_child(nodes[p as int], next))
    } else {
        match chain_before(nodes, nodes[p as int].child, nodes.len(), idx as u32) {
            Some(q) => nodes.update(q, with_sibling(nodes[q], next)),
            None => nodes,
        }
    }
}

/// Takes node `idx` out of its parent's list of children.
fn unlink(nodes: &mut Vec<RenLibNode>, idx: usize)
    requires
        links_ok(old(nodes)@),
        idx < old(nodes)@.len(),
        old(nodes)@.len() < NO_NODE,
    ensures
        final(nodes)@ == unlinked(old(nodes)@, idx as int),
{
    let n = nodes.len();
    let node = nodes[idx];
    let p = node.parent;
    if p == NO_NODE {
        return;
    }
    let pn = nodes[p as usize];
    if pn.child == idx as u32 {
        nodes.set(p as usize, RenLibNode { hash: pn.hash, parent: pn.parent, child: node.sibling, sibling: pn.sibling, move_info: pn.move_info });
        return;
    }
    let ghost ns = nodes@;
    let mut curr = pn.child;
    let mut steps: usize = 0;
    while steps < n
        invariant
            nodes@ == ns,
            ns == old(nodes)@,
            node == ns[idx as int],
            n == ns.len(),
            links_ok(ns),
            n < NO_NODE,
            idx < n,
            steps <= n,
            p < n,
            p == node.parent,
            ns[p as int].child != idx as u32,
            chain_before(ns, ns[p as int].child, n as nat, idx as u32) == chain_before(ns, curr, (n - steps) as nat, idx as u32),
        decreases n - steps,
    {
        if curr as usize >= n {
            return;
        }
        let cn = nodes[curr as usize];
        if cn.sibling == NO_NODE {
            return;
        }
        if cn.sibling == idx as u32 {
            nodes.set(curr as usize, RenLibNode { hash: cn.hash, parent: cn.parent, child: cn.child, sibling: node.sibling, move_info: cn.move_info });
            return;
        }
        curr = cn.sibling;
        steps += 1;
    }
}

impl RenjuApp {
    /// The tree with only the branch of the node shown left: every node is
    /// marked deleted but the root, the node shown, its descendants (see
    /// `reach`) and the parents met going up to the root. `None` without a
    /// tree or a node for the position shown.
    pub fn get_branch_nodes(&self) -> (r: Option<Vec<RenLibNode>>)
        requires
            self.wf(),
        ensures
            match r {
                None => self.lib_nodes is None || self.current_node_spec() is None,
                Some(v) => self.lib_nodes is Some && self.current_node_spec() is Some && ({
                    let nodes = self.lib_nodes->0@;
                    let cur = self.current_node_spec()->0 as int;
                    &&& v@.len() == nodes.len()
                    &&& forall|j: int| 0 <= j < nodes.len() ==> {
                        let keep = j == 0 || j == cur || reach(nodes, nodes[cur].child, nodes.len()).contains(j)
                            || path_parents(nodes, cur, nodes.len()).contains(j);
                        if keep { #[trigger] v@[j] == nodes[j] } else { erased(nodes[j], v@[j]) }
                    }
                }),
            },
    {
        let cur = match self.get_current_node() {
            Some(c) => c,
            None => {
                return None;
            },
        };
        let original = match &self.lib_nodes {
            Some(v) => v,
            None => {
                return None;
            },
        };
        proof {
            if self.is_db_mode {
                let h = position_hash(self.board@.history);
                assert(self.hash_table->0@.contains_key(h));
            }
        }
        let n = original.len();
        let (desc, _) = walk_links(original, original[cur].child);
        let path = mark_path(original, cur);
        let mut nodes: Vec<RenLibNode> = Vec::new();
        let mut j: usize = 0;
        while j < n
            invariant
                n == original@.len(),
                j <= n,
                cur < n,
                desc@.len() == n,
                path@.len() == n,
                nodes@.len() == j,
                forall|i: int| 0 <= i < n ==> (desc@[i] <==> reach(original@, original@[cur as int].child, n as nat).contains(i)),
                forall|i: int| 0 <= i < n ==> (path@[i] <==> path_parents(original@, cur as int, n as nat).contains(i)),
                forall|i: int| 0 <= i < j ==> {
                    let keep = i == 0 || i == cur || reach(original@, original@[cur as int].child, n as nat).contains(i)
                        || path_parents(original@, cur as int, n as nat).contains(i);
                    if keep { #[trigger] nodes@[i] == original@[i] } else { erased(original@[i], nodes@[i]) }
                },
            decreases n - j,
        {
            let mut node = original[j];
            if !(j == 0 || j == cur || desc[j] || path[j]) {
                erase(&mut node);
            }
            nodes.push(node);
            j += 1;
        }
        Some(nodes)
    }

    /// Deletes the branch chosen (`node_to_delete`, then cleared): unless
    /// it is the root or outside the tree, the node and every node met from
    /// its first child (see `reach`) are marked deleted, the table entries
    /// naming one of them under its own hash are dropped, and the node is
    /// taken out of its parent's children. If it was the node of the
    /// position shown, its move is taken back and (in a tree) its parent
    /// becomes the node shown. A change of the board clears the solution.
    pub fn delete_current_branch(&mut self)
        requires
            old(self).wf(),
        ensures
            final(self).wf(),
            final(self).node_to_delete is None,
            final(self).node_texts == old(self).node_texts,
            final(self).text_pool == old(self).text_pool,
            final(self).is_db_mode == old(self).is_db_mode,
            final(self).text_encoding == old(self).text_encoding,
            final(self).max_nodes == old(self).max_nodes,
            final(self).vcf_solving == old(self).vcf_solving,
            final(self).forbidden_points_board == old(self).forbidden_points_board,
            final(self).forbidden_points == old(self).forbidden_points,
            final(self).forbidden_points_valid == old(self).forbidden_points_valid,
            final(self).board@.history.len() != old(self).board@.history.len() ==> final(self).solution_cleared(old(self)),
            final(self).board@.history.len() == old(self).board@.history.len() ==> final(self).vcf_solution == old(self).vcf_solution
                && final(self).vcf_status == old(self).vcf_status,
            ({
                let go = old(self).node_to_delete is Some && old(self).lib_nodes is Some && 0 < old(self).node_to_delete->0
                    < old(self).lib_nodes->0@.len();
                if !go {
                    &&& final(self).board == old(self).board
                    &&& final(self).lib_nodes == old(self).lib_nodes
                    &&& final(self).hash_table == old(self).hash_table
                    &&& final(self).current_node_idx == old(self).current_node_idx
                } else {
                    let idx = old(self).node_to_delete->0 as int;
                    let nodes = old(self).lib_nodes->0@;
                    let gone = |j: int| j == idx || reach(nodes, nodes[idx].child, nodes.len()).contains(j);
                    let relinked = unlinked(nodes, idx);
                    let is_current = old(self).current_node_spec() == Some(idx as usize);
                    &&& final(self).lib_nodes is Some
                    &&& final(self).lib_nodes->0@.len() == nodes.len()
                    &&& forall|j: int| 0 <= j < nodes.len() ==> if gone(j) {
                        erased(relinked[j], #[trigger] final(self).lib_nodes->0@[j])
                    } else {
                        final(self).lib_nodes->0@[j] == relinked[j]
                    }
                    &&& match old(self).hash_table {
                        Some(t) => final(self).hash_table is Some && (forall|h: u64| #[trigger] final(self).hash_table->0@.contains_key(h)
                            <==> t@.contains_key(h) && !(gone(t@[h] as int) && nodes[t@[h] as int].hash == h)) && (forall|h: u64|
                            #[trigger] final(self).hash_table->0@.contains_key(h) ==> final(self).hash_table->0@[h] == t@[h]),
                        None => final(self).hash_table is None,
                    }
                    &&& final(self).board@ == if is_current { old(self).board@.undone() } else { old(self).board@ }
                    &&& final(self).current_node_idx == if is_current && !old(self).is_db_mode {
                        if nodes[idx].parent == NO_NODE { None } else { Some(nodes[idx].parent as usize) }
                    } else {
                        old(self).current_node_idx
                    }
                }
            }),
    {
        let target = self.node_to_delete;
        if let Some(idx) = target {
            let is_current = match self.get_current_node() {
                Some(c) => c == idx,
                None => false,
            };
            let before_len = self.board.history.len();
            if let Some(nodes) = &mut self.lib_nodes {
                if idx > 0 && idx < nodes.len() {
                    let n = nodes.len();
                    let ghost ns = nodes@;
                    let (desc, _) = walk_links(nodes, nodes[idx].child);
                    if let Some(ht) = &mut self.hash_table {
                        let ghost t0 = ht@;
                        let mut s: usize = 0;
                        while s < n
                            invariant
                                n == ns.len(),
                                nodes@ == ns,
                                s <= n,
                                idx < n,
                                desc@.len() == n,
                                forall|i: int| 0 <= i < n ==> (desc@[i] <==> reach(ns, ns[idx as int].child, n as nat).contains(i)),
                                table_in_range(t0, n as nat),
                                forall|h: u64| #[trigger] ht@.contains_key(h) <==> t0.contains_key(h) && !(t0[h] < s && (t0[h] == idx
                                    || reach(ns, ns[idx as int].child, n as nat).contains(t0[h] as int)) && ns[t0[h] as int].hash == h),
                                forall|h: u64| #[trigger] ht@.contains_key(h) ==> ht@[h] == t0[h],
                            decreases n - s,
                        {
                            if s == idx || desc[s] {
                                let h = nodes[s].hash;
                                match id_map_get(ht, h) {
                                    Some(head) => {
                                        if head as usize == s {
                                            id_map_remove(ht, h);
                                        }
                                    },
                                    None => {},
                                }
                            }
                            s += 1;
                        }
                    }
                    unlink(nodes, idx);
                    let ghost relinked = nodes@;
                    proof {
                        lemma_unlinked_len(ns, idx as int);
                    }
                    let mut s: usize = 0;
                    while s < n
                        invariant
                            n == ns.len(),
                            nodes@.len() == n,
                            relinked == unlinked(ns, idx as int),
                            s <= n,
                            idx < n,
                            desc@.len() == n,
                            forall|i: int| 0 <= i < n ==> (desc@[i] <==> reach(ns, ns[idx as int].child, n as nat).contains(i)),
                            forall|j: int| 0 <= j < s ==> if j == idx || reach(ns, ns[idx as int].child, n as nat).contains(j) {
                                erased(relinked[j], #[trigger] nodes@[j])
                            } else {
                                nodes@[j] == relinked[j]
                            },
                            forall|j: int| s <= j < n ==> #[trigger] nodes@[j] == relinked[j],
                        decreases n - s,
                    {
                        if s == idx || desc[s] {
                            let mut node = nodes[s];
                            erase(&mut node);
                            nodes.set(s, node);
                        }
                        s += 1;
                    }
                    proof {
                        lemma_unlinked_links(ns, idx as int);
                        assert forall|i: int| 0 <= i < n implies {
                            &&& (#[trigger] nodes@[i]).parent == NO_NODE || nodes@[i].parent < n
                            &&& nodes@[i].child == NO_NODE || nodes@[i].child < n
                            &&& nodes@[i].sibling == NO_NODE || nodes@[i].sibling < n
                        } by {
                            assert(relinked[i].parent == NO_NODE || relinked[i].parent < n);
                        }
                        assert(links_ok(nodes@));
                        assert(relinked[idx as int].parent == ns[idx as int].parent);
                    }
                    self.subtree_cache = Vec::new();
                    if is_current {
                        self.board.undo();
                        if !self.is_db_mode {
                            let p = ns_parent(nodes, idx);
                            if p != NO_NODE {
                                self.current_node_idx = Some(p as usize);
                            } else {
                                self.current_node_idx = None;
                            }
                        }
                    }
                }
            }
            self.node_to_delete = None;
            if self.board.history.len() != before_len {
                self.clear_vcf_solution();
            }
        }
    }
}

/// The parent link of node `idx`.
fn ns_parent(nodes: &Vec<RenLibNode>, idx: usize) -> (p: u32)
    requires
        idx < nodes@.len(),
    ensures
        p == nodes@[idx as int].parent,
{
    nodes[idx].parent
}


/// A VCF search to run: the board in the solver's cell codes, the side to
/// move, the depth and time limits and the mode.
pub struct VcfSearch {
    pub board: [u8; 225],
    pub turn: u8,
    pub depth: usize,
    pub timeout_secs: usize,
    pub mode: SearchMode,
}

/// The status line of a search started: side, mode, depth and time limit.
pub open spec fn search_status(turn: u8, mode: SearchMode, depth: nat, timeout: nat) -> Seq<char> {
    (if turn == BLACK { "Black"@ } else { "White"@ }) + " "@ + (if mode == SearchMode::Long {
        "VCF long"@
    } else {
        "VCF shortest"@
    }) + " / depth "@ + dec_text(depth) + " / "@ + dec_text(timeout) + "s"@
}

impl RenjuApp {
    /// Starts a VCF search on the board shown, unless one runs (then
    /// `None`, nothing changed). When the stone counts give no side to move
    /// the status line says why, the solution is cleared and nothing runs.
    /// Otherwise depth and time limit are raised to at least 1, the solution
    /// is cleared, the search is marked running with a status line naming
    /// it, and what to run is given back.
    pub fn start_vcf_search(&mut self, mode: SearchMode, depth: usize, timeout_secs: usize) -> (r: Option<VcfSearch>)
        requires
            old(self).wf(),
        ensures
            final(self).wf(),
            final(self).board == old(self).board,
            final(self).lib_nodes == old(self).lib_nodes,
            final(self).hash_table == old(self).hash_table,
            final(self).node_texts == old(self).node_texts,
            final(self).text_pool == old(self).text_pool,
            final(self).current_node_idx == old(self).current_node_idx,
            final(self).is_db_mode == old(self).is_db_mode,
            final(self).node_to_delete == old(self).node_to_delete,
            final(self).forbidden_points_valid == old(self).forbidden_points_valid,
            final(self).forbidden_points == old(self).forbidden_points,
            final(self).forbidden_points_board == old(self).forbidden_points_board,
            ({
                let b = Seq::new(225, |i: int| cell_code(old(self).board@.grid[i]));
                let black = count_cells(b, BLACK);
                let white = count_cells(b, WHITE);
                if old(self).vcf_solving {
                    &&& r is None
                    &&& final(self).vcf_solving
                    &&& final(self).vcf_status == old(self).vcf_status
                    &&& final(self).vcf_solution == old(self).vcf_solution
                } else if black != white && black != white + 1 {
                    &&& r is None
                    &&& !final(self).vcf_solving
                    &&& final(self).vcf_status@ == bad_count_message(black, white)
                    &&& final(self).vcf_solution@.len() == 0
                } else {
                    let turn = if black == white { BLACK } else { WHITE };
                    let d = if depth >= 1 { depth } else { 1 };
                    let t = if timeout_secs >= 1 { timeout_secs } else { 1 };
                    &&& r is Some
                    &&& r->0.board@ == b
                    &&& r->0.turn == turn
                    &&& r->0.depth == d
                    &&& r->0.timeout_secs == t
                    &&& r->0.mode == mode
                    &&& final(self).vcf_solving
                    &&& final(self).vcf_solution@.len() == 0
                    &&& final(self).vcf_status@ == search_status(turn, mode, d as nat, t as nat)
                }
            }),
    {
        if self.vcf_solving {
            return None;
        }
        let board = self.current_vcf_board();
        proof {
            assert(board@ =~= Seq::new(225, |i: int| cell_code(self.board@.grid[i])));
        }
        let turn = match side_to_move(&board) {
            Ok(t) => t,
            Err(msg) => {
                self.vcf_status = msg;
                self.vcf_solution.clear();
                return None;
            },
        };
        let d = if depth >= 1 { depth } else { 1 };
        let t = if timeout_secs >= 1 { timeout_secs } else { 1 };
        self.vcf_solution.clear();
        self.vcf_solving = true;
        let mut status = String::new();
        if turn == BLACK {
            push_str(&mut status, "Black");
        } else {
            push_str(&mut status, "White");
        }
        push_str(&mut status, " ");
        if mode == SearchMode::Long {
            push_str(&mut status, "VCF long");
        } else {
            push_str(&mut status, "VCF shortest");
        }
        push_str(&mut status, " / depth ");
        push_dec(&mut status, d);
        push_str(&mut status, " / ");
        push_dec(&mut status, t);
        push_str(&mut status, "s");
        self.vcf_status = status;
        Some(VcfSearch { board, turn, depth: d, timeout_secs: t, mode })
    }

    /// Opens a library read from `data` (a `.db` database when `is_db`,
    /// else a `.lib` file) with the node limit and text encoding of the
    /// settings. When it parses, its tree, table, texts and pool replace the
    /// ones open, the root is shown on an empty board (with the root's own
    /// stone placed, for a `.lib` whose root carries one), the branch chosen
    /// for deletion is forgotten and the solution is cleared; otherwise
    /// nothing changes. The nodes of a `.lib` are those of `lib_read`, each
    /// hashed as its board from the empty board (`read_pos`); those
    /// of a database hang in order under nodes one move less deep. A `.lib`
    /// always parses; a database that is not an
    /// LZ4 frame fails exactly when it is shorter than 4 bytes. Says whether
    /// it was opened.
    pub fn process_loaded_data(&mut self, data: &[u8], is_db: bool) -> (loaded: bool)
        requires
            old(self).wf(),
            is_db || data@.len() >= 20,
            data@.len() + 4 < NO_NODE,
            old(self).max_nodes < usize::MAX,
        ensures
            final(self).wf(),
            !is_db ==> loaded,
            is_db && (data@.len() < 4 || (data@[0], data@[1], data@[2], data@[3]) != (0x04u8, 0x22u8, 0x4Du8, 0x18u8))
                ==> (loaded <==> data@.len() >= 4),
            final(self).text_encoding == old(self).text_encoding,
            final(self).max_nodes == old(self).max_nodes,
            final(self).vcf_solving == old(self).vcf_solving,
            final(self).forbidden_points_valid == old(self).forbidden_points_valid,
            final(self).forbidden_points == old(self).forbidden_points,
            final(self).forbidden_points_board == old(self).forbidden_points_board,
            !loaded ==> final(self).board == old(self).board && final(self).lib_nodes == old(self).lib_nodes
                && final(self).hash_table == old(self).hash_table && final(self).node_texts == old(self).node_texts
                && final(self).text_pool == old(self).text_pool && final(self).current_node_idx == old(self).current_node_idx
                && final(self).is_db_mode == old(self).is_db_mode && final(self).node_to_delete == old(self).node_to_delete
                && final(self).vcf_solution == old(self).vcf_solution && final(self).vcf_status == old(self).vcf_status,
            loaded ==> ({
                &&& final(self).solution_cleared(old(self))
                &&& final(self).is_db_mode == is_db
                &&& final(self).current_node_idx == Some(0usize)
                &&& final(self).node_to_delete is None
                &&& final(self).lib_nodes is Some && final(self).hash_table is Some && final(self).node_texts is Some
                    && final(self).text_pool is Some
                &&& final(self).board@.future.len() == 0
                &&& final(self).board@.history == {
                    let root = final(self).lib_nodes->0@[0];
                    if !is_db && root.spec_x() >= 0 && root.spec_y() >= 0 && root.spec_x() < 15 && root.spec_y() < 15 {
                        seq![(root.spec_y() * 15 + root.spec_x()) as usize]
                    } else {
                        Seq::<usize>::empty()
                    }
                }
                &&& !is_db ==> lib_agrees(
                    final(self).lib_nodes->0@,
                    final(self).node_texts->0@,
                    final(self).text_pool->0.texts(),
                    lib_read(data@, old(self).max_nodes as nat),
                )
                &&& !is_db ==> forall|k: int| 0 <= k < final(self).lib_nodes->0@.len() ==> hashed_as(
                    #[trigger] final(self).lib_nodes->0@[k],
                    read_pos(lib_read(data@, old(self).max_nodes as nat), k, empty_pos()),
                )
                &&& is_db ==> children_in_order(final(self).lib_nodes->0@) && parents_one_up(final(self).lib_nodes->0@)
            }),
    {
        let mut parser = RenLibParser::new(self.max_nodes);
        parser.set_encoding(self.text_encoding);
        let mut parse_board = HashBoard::new();
        proof {
            assert(board_pos(parse_board).occupied =~= empty_pos().occupied);
            assert forall|t: int| 0 <= t < 8 implies #[trigger] board_pos(parse_board).hashes[t] == empty_pos().hashes[t] by {
                assert(parse_board.hashes[t] == crate::engine::hash_board::hash_of(Seq::empty(), t));
            }
            assert(board_pos(parse_board).hashes =~= empty_pos().hashes);
            assert(board_pos(parse_board) == empty_pos());
        }
        let result = if is_db {
            parser.parse_db(data)
        } else {
            parser.parse_all(data, &mut parse_board)
        };
        if result.is_err() {
            return false;
        }
        proof {
            if !is_db {
                assert forall|h: u64| #[trigger] parser.hash_table@.contains_key(h) implies parser.hash_table@[h]
                    < parser.nodes@.len() by {}
            }
        }
        self.lib_nodes = Some(parser.nodes);
        self.subtree_cache = Vec::new();
        self.hash_table = Some(parser.hash_table);
        self.node_texts = Some(parser.node_texts);
        self.text_pool = Some(parser.text_pool);
        self.current_node_idx = Some(0);
        self.node_to_delete = None;
        self.board = Board::new();
        self.is_db_mode = is_db;
        if !is_db {
            if let Some(nodes) = &self.lib_nodes {
                let root = nodes[0];
                if root.x() >= 0 && root.y() >= 0 {
                    self.board.place_stone(root.x() as usize, root.y() as usize);
                }
            }
        }
        self.clear_vcf_solution();
        true
    }
}


/// The id `text` gets in the pool: none for an empty text, else the id of
/// its bytes in encoding `enc`, filed if new.
pub open spec fn interned(pool_before: Seq<Seq<u8>>, pool_after: Seq<Seq<u8>>, enc: TextEncoding, text: Seq<char>, id: u32) -> bool {
    if text.len() == 0 {
        id == NO_TEXT && pool_after == pool_before
    } else {
        let bytes = encoded(enc, text);
        &&& id < pool_after.len()
        &&& pool_after[id as int] == bytes
        &&& pool_after == pool_before || (pool_after == pool_before.push(bytes) && id == pool_before.len())
    }
}

/// Whether the pool can take the bytes of `text` in `enc` (ids and offsets
/// are 32-bit); an empty text needs no room.
pub open spec fn pool_has_room(pool: TextPool, enc: TextEncoding, text: Seq<char>) -> bool {
    text.len() == 0 || (pool.buffer@.len() + encoded(enc, text).len() <= 0xFFFF_FFFF && pool.spans@.len()
        < 0xFFFF_FFFE)
}

impl RenjuApp {
    /// Files `text` in the pool (an empty text means none): `None` when the
    /// pool has no room left for it (ids and offsets are 32-bit).
    fn intern_text(&mut self, text: &str) -> (r: Option<u32>)
        requires
            old(self).wf(),
            old(self).text_pool is Some,
        ensures
            final(self).wf(),
            final(self).text_pool is Some,
            match r {
                Some(id) => interned(
                    old(self).text_pool->0.texts(),
                    final(self).text_pool->0.texts(),
                    old(self).text_encoding,
                    text@,
                    id,
                ),
                None => final(self).text_pool == old(self).text_pool,
            },
            r is Some <==> pool_has_room(old(self).text_pool->0, old(self).text_encoding, text@),
            final(self).board == old(self).board,
            final(self).lib_nodes == old(self).lib_nodes,
            final(self).hash_table == old(self).hash_table,
            final(self).node_texts == old(self).node_texts,
            final(self).current_node_idx == old(self).current_node_idx,
            final(self).is_db_mode == old(self).is_db_mode,
            final(self).node_to_delete == old(self).node_to_delete,
            final(self).text_encoding == old(self).text_encoding,
            final(self).max_nodes == old(self).max_nodes,
            final(self).vcf_solution == old(self).vcf_solution,
            final(self).vcf_status == old(self).vcf_status,
            final(self).vcf_solving == old(self).vcf_solving,
            final(self).forbidden_points_board == old(self).forbidden_points_board,
            final(self).forbidden_points == old(self).forbidden_points,
            final(self).forbidden_points_valid == old(self).forbidden_points_valid,
            final(self).subtree_cache == old(self).subtree_cache,
    {
        if text.unicode_len() == 0 {
            return Some(NO_TEXT);
        }
        let bytes = encode_text(self.text_encoding, text);
        match &mut self.text_pool {
            Some(pool) => {
                if bytes.len() > 0xFFFF_FFFF || pool.buffer.len() > 0xFFFF_FFFF - bytes.len() || pool.spans.len() >= 0xFFFF_FFFE {
                    return None;
                }
                let id = pool.get_or_insert(bytes.as_slice());
                Some(id)
            },
            None => None,
        }
    }

    /// Stores `text` as the comment of the node of the position shown (an
    /// empty text removes it), and of the node the hash table files that
    /// position under. Without a tree, a node for the position or room in
    /// the pool, nothing changes; says whether it was stored.
    pub fn set_current_comment(&mut self, text: &str) -> (stored: bool)
        requires
            old(self).wf(),
        ensures
            final(self).wf(),
            final(self).board == old(self).board,
            final(self).lib_nodes == old(self).lib_nodes,
            final(self).hash_table == old(self).hash_table,
            final(self).current_node_idx == old(self).current_node_idx,
            final(self).is_db_mode == old(self).is_db_mode,
            final(self).text_encoding == old(self).text_encoding,
            !stored ==> final(self).node_texts == old(self).node_texts,
            stored <==> old(self).lib_nodes is Some && old(self).current_node_spec() is Some && old(self).node_texts is Some
                && old(self).text_pool is Some && pool_has_room(old(self).text_pool->0, old(self).text_encoding, text@),
            stored ==> ({
                let idx = old(self).current_node_spec()->0;
                let nodes = old(self).lib_nodes->0@;
                let h = nodes[idx as int].hash;
                &&& old(self).lib_nodes is Some && old(self).current_node_spec() is Some
                &&& old(self).node_texts is Some && old(self).text_pool is Some
                &&& exists|id: u32| #![trigger interned(old(self).text_pool->0.texts(), final(self).text_pool->0.texts(), old(self).text_encoding, text@, id)]
                    interned(
                        old(self).text_pool->0.texts(),
                        final(self).text_pool->0.texts(),
                        old(self).text_encoding,
                        text@,
                        id,
                    ) && final(self).node_texts is Some && final(self).node_texts->0@ == {
                        let t0 = old(self).node_texts->0@;
                        let t1 = match old(self).hash_table {
                            Some(t) => if t@.contains_key(h) {
                                pairs_set(t0, t@[h] as int, 0xFFFF_0000, clamp_id(id))
                            } else {
                                t0
                            },
                            None => t0,
                        };
                        pairs_set(t1, idx as int, 0xFFFF_0000, clamp_id(id))
                    }
            }),
    {
        let idx = match self.get_current_node() {
            Some(i) => i,
            None => {
                return false;
            },
        };
        if self.lib_nodes.is_none() || self.node_texts.is_none() || self.text_pool.is_none() {
            return false;
        }
        proof {
            if self.is_db_mode {
                assert(self.hash_table->0@.contains_key(position_hash(self.board@.history)));
            }
        }
        let h = match &self.lib_nodes {
            Some(nodes) => nodes[idx].hash,
            None => {
                return false;
            },
        };
        let id = match self.intern_text(text) {
            Some(id) => id,
            None => {
                return false;
            },
        };
        let head = match &self.hash_table {
            Some(t) => id_map_get(t, h),
            None => None,
        };
        proof {
            if head is Some {
                assert(self.hash_table->0@.contains_key(h));
            }
        }
        match head {
            Some(hd) => {
                self.set_comment_id(hd as usize, id);
            },
            None => {},
        }
        self.set_comment_id(idx, id);
        true
    }
}


/// `fresh` is the node a new move (x, y) under node `idx` gets: no child,
/// the former first child of `idx` as sibling, hash `h`, one deeper.
pub open spec fn new_child_node(nodes: Seq<RenLibNode>, idx: int, x: i8, y: i8, h: u64, fresh: RenLibNode) -> bool {
    &&& fresh.spec_x() == x && fresh.spec_y() == y
    &&& fresh.parent == idx as u32 && fresh.child == NO_NODE && fresh.sibling == nodes[idx].child
    &&& fresh.hash == h
    &&& fresh.spec_depth() == (nodes[idx].spec_depth() + 1) % 256
}

impl RenjuApp {
    /// Adds a node for move (x, y) under node `idx` (first among its
    /// children), filed in the table under hash `h`; gives its index.
    fn add_child(&mut self, idx: usize, x: i8, y: i8, h: u64) -> (r: usize)
        requires
            old(self).wf(),
            old(self).lib_nodes is Some,
            idx < old(self).lib_nodes->0@.len(),
            old(self).lib_nodes->0@.len() + 1 < NO_NODE,
        ensures
            final(self).wf(),
            r == old(self).lib_nodes->0@.len(),
            final(self).lib_nodes is Some,
            final(self).lib_nodes->0@ == old(self).lib_nodes->0@.update(
                idx as int,
                with_child(old(self).lib_nodes->0@[idx as int], r as u32),
            ).push(final(self).lib_nodes->0@[r as int]),
            new_child_node(old(self).lib_nodes->0@, idx as int, x, y, h, final(self).lib_nodes->0@[r as int]),
            match old(self).hash_table {
                Some(t) => final(self).hash_table is Some && final(self).hash_table->0@ == t@.insert(h, r as u32),
                None => final(self).hash_table is None,
            },
            final(self).board == old(self).board,
            final(self).node_texts == old(self).node_texts,
            final(self).text_pool == old(self).text_pool,
            final(self).current_node_idx == old(self).current_node_idx,
            final(self).is_db_mode == old(self).is_db_mode,
            final(self).node_to_delete == old(self).node_to_delete,
            final(self).text_encoding == old(self).text_encoding,
            final(self).max_nodes == old(self).max_nodes,
            final(self).vcf_solution == old(self).vcf_solution,
            final(self).vcf_status == old(self).vcf_status,
            final(self).vcf_solving == old(self).vcf_solving,
            final(self).forbidden_points_board == old(self).forbidden_points_board,
            final(self).forbidden_points == old(self).forbidden_points,
            final(self).forbidden_points_valid == old(self).forbidden_points_valid,
            final(self).subtree_cache@.len() == 0,
    {
        let new_idx: usize = match &mut self.lib_nodes {
            Some(nodes) => {
                let new_idx = nodes.len();
                let parent_node = nodes[idx];
                let depth = parent_node.depth().wrapping_add(1);
                let fresh = RenLibNode::new(x, y, idx as u32, NO_NODE, parent_node.child, h, depth);
                let linked = RenLibNode {
                    hash: parent_node.hash,
                    parent: parent_node.parent,
                    child: new_idx as u32,
                    sibling: parent_node.sibling,
                    move_info: parent_node.move_info,
                };
                nodes.set(idx, linked);
                nodes.push(fresh);
                new_idx
            },
            None => 0,
        };
        self.subtree_cache = Vec::new();
        if let Some(ht) = &mut self.hash_table {
            id_map_insert(ht, h, new_idx as u32);
        }
        new_idx
    }

    /// Stores `text` as the board text of cell (x, y) seen from the position
    /// shown (an empty text removes it): on the child of the node shown that
    /// plays there, or on a new such child (added as `play_move` adds one,
    /// without playing it), and on the node the table files the position
    /// after that move under. Without a tree nothing changes; without a node
    /// for the position shown the text goes to the root. Says whether the
    /// text was stored (the pool may lack room; a new child stays).
    pub fn set_board_text(&mut self, x: i8, y: i8, text: &str) -> (stored: bool)
        requires
            old(self).wf(),
            on_board(x as int, y as int),
        ensures
            final(self).wf(),
            final(self).board == old(self).board,
            final(self).current_node_idx == old(self).current_node_idx,
            final(self).is_db_mode == old(self).is_db_mode,
            final(self).text_encoding == old(self).text_encoding,
            old(self).lib_nodes is None ==> !stored && final(self).lib_nodes is None && final(self).node_texts
                == old(self).node_texts && final(self).hash_table == old(self).hash_table,
            old(self).lib_nodes is Some && old(self).board@.history.len() < usize::MAX ==> ({
                let nodes = old(self).lib_nodes->0@;
                let cell = (y * 15 + x) as usize;
                let h = position_hash(old(self).board@.history.push(cell));
                let direct = match old(self).current_node_spec() {
                    Some(idx) => find_child(nodes, nodes[idx as int].child, nodes.len(), x, y),
                    None => None,
                };
                let grow = direct is None && old(self).current_node_spec() is Some && nodes.len() + 1 < NO_NODE;
                let target: int = match direct {
                    Some(c) => c,
                    None => if grow { nodes.len() as int } else if old(self).current_node_spec() is Some {
                        -1
                    } else {
                        0
                    },
                };
                &&& final(self).lib_nodes is Some
                &&& grow ==> {
                    let idx = old(self).current_node_spec()->0 as int;
                    &&& final(self).lib_nodes->0@ == nodes.update(idx, with_child(nodes[idx], nodes.len() as u32)).push(
                        final(self).lib_nodes->0@[nodes.len() as int],
                    )
                    &&& new_child_node(nodes, idx, x, y, h, final(self).lib_nodes->0@[nodes.len() as int])
                    &&& match old(self).hash_table {
                        Some(t) => final(self).hash_table is Some && final(self).hash_table->0@ == t@.insert(h, nodes.len() as u32),
                        None => final(self).hash_table is None,
                    }
                }
                &&& !grow ==> final(self).lib_nodes == old(self).lib_nodes && final(self).hash_table == old(self).hash_table
                &&& stored <==> target >= 0 && old(self).node_texts is Some && old(self).text_pool is Some && pool_has_room(
                    old(self).text_pool->0,
                    old(self).text_encoding,
                    text@,
                )
                &&& !stored ==> final(self).node_texts == old(self).node_texts
                &&& stored ==> exists|id: u32| #![trigger interned(old(self).text_pool->0.texts(), final(self).text_pool->0.texts(), old(self).text_encoding, text@, id)]
                    interned(
                        old(self).text_pool->0.texts(),
                        final(self).text_pool->0.texts(),
                        old(self).text_encoding,
                        text@,
                        id,
                    ) && final(self).node_texts is Some && final(self).node_texts->0@ == {
                        let t0 = old(self).node_texts->0@;
                        let t1 = match final(self).hash_table {
                            Some(t) => if t@.contains_key(h) {
                                pairs_set(t0, t@[h] as int, 0x0000_FFFF, clamp_id(id) << 16u32)
                            } else {
                                t0
                            },
                            None => t0,
                        };
                        pairs_set(t1, target, 0x0000_FFFF, clamp_id(id) << 16u32)
                    }
            }),
    {
        if self.lib_nodes.is_none() {
            return false;
        }
        if self.board.history.len() == usize::MAX {
            return false;
        }
        let pb = history_board(&self.board.history);
        let mut pb2 = pb;
        pb2.make_move(x, y);
        let new_hash = pb2.get_canonical_hash();
        let cell: usize = (y as usize) * 15 + (x as usize);
        proof {
            let hist = self.board@.history;
            lemma_placed_hashes(pb, pb2, history_stones(hist), x as int, y as int, (hist.len() % 2) as int);
            assert(history_stones(hist.push(cell)) =~= history_stones(hist).push(
                ((cell % 15) as int, (cell / 15) as int, (hist.len() % 2) as int),
            ));
            lemma_canonical_of(pb2, hist.push(cell), new_hash);
        }
        let current = self.get_current_node();
        proof {
            if self.is_db_mode && current is Some {
                assert(self.hash_table->0@.contains_key(position_hash(self.board@.history)));
            }
        }
        let direct: Option<usize> = match current {
            Some(idx) => match &self.lib_nodes {
                Some(nodes) => find_child_exec(nodes, nodes[idx].child, x, y),
                None => None,
            },
            None => None,
        };
        let n = match &self.lib_nodes {
            Some(nodes) => nodes.len(),
            None => 0,
        };
        let target: usize = match direct {
            Some(c) => c,
            None => match current {
                Some(idx) => {
                    if n < 0xFFFF_FFFE {
                        self.add_child(idx, x, y, new_hash)
                    } else {
                        return false;
                    }
                },
                None => 0,
            },
        };
        if self.node_texts.is_none() || self.text_pool.is_none() {
            return false;
        }
        let id = match self.intern_text(text) {
            Some(id) => id,
            None => {
                return false;
            },
        };
        let head = match &self.hash_table {
            Some(t) => id_map_get(t, new_hash),
            None => None,
        };
        match head {
            Some(hd) => {
                self.set_text_id(hd as usize, id);
            },
            None => {},
        }
        self.set_text_id(target, id);
        true
    }
}


impl RenjuApp {
    /// Everything but the cached subtree sizes is the same in `self` and `o`.
    pub open spec fn same_but_cache(&self, o: &Self) -> bool {
        &&& self.board == o.board
        &&& self.lib_nodes == o.lib_nodes
        &&& self.hash_table == o.hash_table
        &&& self.node_texts == o.node_texts
        &&& self.text_pool == o.text_pool
        &&& self.current_node_idx == o.current_node_idx
        &&& self.is_db_mode == o.is_db_mode
        &&& self.node_to_delete == o.node_to_delete
        &&& self.text_encoding == o.text_encoding
        &&& self.max_nodes == o.max_nodes
        &&& self.vcf_solution == o.vcf_solution
        &&& self.vcf_status == o.vcf_status
        &&& self.vcf_solving == o.vcf_solving
        &&& self.forbidden_points_board == o.forbidden_points_board
        &&& self.forbidden_points == o.forbidden_points
        &&& self.forbidden_points_valid == o.forbidden_points_valid
    }

    /// The number of nodes below node `idx` (children, their children, and
    /// so on, with the siblings met on the way), or 0 without a tree; the
    /// count is kept for the next call.
    pub fn get_subtree_size(&mut self, idx: usize) -> (r: usize)
        requires
            old(self).wf(),
            old(self).lib_nodes is Some ==> idx < old(self).lib_nodes->0@.len(),
        ensures
            final(self).wf(),
            r == match old(self).lib_nodes {
                Some(v) => subtree_value(v@, idx as int),
                None => 0,
            },
            final(self).same_but_cache(old(self)),
            old(self).lib_nodes is Some ==> final(self).subtree_cache@[idx as int] == Some(r),
            old(self).lib_nodes is Some ==> forall|k: int| 0 <= k < old(self).subtree_cache@.len() && k != idx
                ==> #[trigger] final(self).subtree_cache@[k] == old(self).subtree_cache@[k],
    {
        let n = match &self.lib_nodes {
            Some(nodes) => nodes.len(),
            None => {
                return 0;
            },
        };
        if idx < self.subtree_cache.len() {
            if let Some(c) = self.subtree_cache[idx] {
                return c;
            }
        }
        let count = match &self.lib_nodes {
            Some(nodes) => {
                let (_, c) = walk_links(nodes, nodes[idx].child);
                c
            },
            None => 0,
        };
        let ghost ns = self.lib_nodes->0@;
        while self.subtree_cache.len() < n
            invariant
                self.lib_nodes is Some,
                self.lib_nodes->0@ == ns,
                n == ns.len(),
                self.subtree_cache@.len() <= n,
                forall|k: int| 0 <= k < self.subtree_cache@.len() && (#[trigger] self.subtree_cache@[k]) is Some
                    ==> self.subtree_cache@[k]->0 == subtree_value(ns, k),
                self.same_but_cache(old(self)),
                old(self).subtree_cache@.len() <= self.subtree_cache@.len(),
                forall|k: int| 0 <= k < old(self).subtree_cache@.len() ==> #[trigger] self.subtree_cache@[k] == old(self).subtree_cache@[k],
            decreases n - self.subtree_cache@.len(),
        {
            self.subtree_cache.push(None);
        }
        self.subtree_cache.set(idx, Some(count));
        count
    }
}


impl RenjuApp {
    /// What `step_back` makes of the viewer `o` (board and node shown);
    /// `self` is the result.
    pub open spec fn stepped_back_from(&self, o: &Self) -> bool {
        if o.is_db_mode || o.lib_nodes is None {
            &&& self.board@ == o.board@.undone()
            &&& self.current_node_idx == o.current_node_idx
        } else {
            match o.current_node_idx {
                Some(idx) => {
                    let node = o.lib_nodes->0@[idx as int];
                    if node.parent != NO_NODE {
                        &&& self.board@ == if node.spec_x() >= 0 && node.spec_y() >= 0 {
                            o.board@.undone()
                        } else {
                            o.board@
                        }
                        &&& self.current_node_idx == Some(node.parent as usize)
                    } else {
                        &&& self.board@ == o.board@
                        &&& self.current_node_idx == o.current_node_idx
                    }
                },
                None => {
                    &&& self.board@ == o.board@
                    &&& self.current_node_idx == o.current_node_idx
                },
            }
        }
    }

    /// Goes back one move: a database (or a viewer without a tree) takes
    /// the last move back; in a tree the parent of the node shown becomes
    /// the node shown, the move of the node left taken back if it has one
    /// (the root stays). A change of the board clears the solution shown.
    pub fn step_back(&mut self)
        requires
            old(self).wf(),
        ensures
            final(self).wf(),
            final(self).stepped_back_from(old(self)),
            final(self).lib_nodes == old(self).lib_nodes,
            final(self).hash_table == old(self).hash_table,
            final(self).node_texts == old(self).node_texts,
            final(self).text_pool == old(self).text_pool,
            final(self).is_db_mode == old(self).is_db_mode,
            final(self).node_to_delete == old(self).node_to_delete,
            final(self).text_encoding == old(self).text_encoding,
            final(self).max_nodes == old(self).max_nodes,
            final(self).vcf_solving == old(self).vcf_solving,
            final(self).subtree_cache == old(self).subtree_cache,
            final(self).forbidden_points_board == old(self).forbidden_points_board,
            final(self).forbidden_points == old(self).forbidden_points,
            final(self).forbidden_points_valid == old(self).forbidden_points_valid,
            final(self).board@.history.len() != old(self).board@.history.len() ==> final(self).solution_cleared(old(self)),
            final(self).board@.history.len() == old(self).board@.history.len() ==> final(self).vcf_solution == old(self).vcf_solution
                && final(self).vcf_status == old(self).vcf_status,
    {
        let before_len = self.board.history.len();
        if self.is_db_mode {
            self.board.undo();
        } else if let Some(nodes) = &self.lib_nodes {
            if let Some(idx) = self.current_node_idx {
                let node = nodes[idx];
                let p = node.parent;
                if p != NO_NODE {
                    if node.x() >= 0 && node.y() >= 0 {
                        self.board.undo();
                    }
                    self.current_node_idx = Some(p as usize);
                }
            }
        } else {
            self.board.undo();
        }
        if self.board.history.len() != before_len {
            self.clear_vcf_solution();
        }
    }
}

/// Playing a new move in a tree and then going back one move gives back
/// the position and the node shown before (the move stays in the tree,
/// and is kept as the one to replay).
pub proof fn lemma_back_after_new_move(a0: RenjuApp, a1: RenjuApp, a2: RenjuApp, ux: usize, uy: usize)
    requires
        a0.wf(),
        !a0.is_db_mode,
        a0.lib_nodes is Some,
        a0.current_node_idx is Some,
        a0.board@.can_place(ux as int, uy as int),
        find_child(
            a0.lib_nodes->0@,
            a0.lib_nodes->0@[a0.current_node_idx->0 as int].child,
            a0.lib_nodes->0@.len(),
            ux as i8,
            uy as i8,
        ) is None,
        a0.lib_nodes->0@.len() + 1 < NO_NODE,
        a1.moved_from(&a0, ux, uy),
        a1.is_db_mode == a0.is_db_mode,
        a2.stepped_back_from(&a1),
    ensures
        a2.board@.grid == a0.board@.grid,
        a2.board@.history == a0.board@.history,
        a2.board@.next == a0.board@.next,
        a2.board@.future == seq![(uy * 15 + ux) as usize],
        a2.current_node_idx == a0.current_node_idx,
{
    let nodes = a0.lib_nodes->0@;
    let n = nodes.len();
    assert(a1.lib_nodes->0@[n as int].parent == a0.current_node_idx->0 as u32);
    assert(a1.lib_nodes->0@[n as int].spec_x() == ux as i8);
    assert(0 <= ux < 15 && 0 <= uy < 15);
    crate::board::lemma_undo_after_place(a0.board@, ux as int, uy as int);
}

/// Going back one move in a tree and then forward one move gives back the
/// position and the node shown, when the node shown carries the last move
/// played and is the first child of its parent on that cell.
pub proof fn lemma_forward_after_back(a0: RenjuApp, a1: RenjuApp, a2: RenjuApp, moved: bool)
    requires
        a0.wf(),
        !a0.is_db_mode,
        a0.lib_nodes is Some,
        a0.current_node_idx is Some,
        ({
            let nodes = a0.lib_nodes->0@;
            let c = a0.current_node_idx->0 as int;
            let node = nodes[c];
            &&& node.parent != NO_NODE
            &&& 0 <= node.spec_x() < 15 && 0 <= node.spec_y() < 15
            &&& a0.board@.history.len() > 0
            &&& a0.board@.history.last() == node.spec_y() * 15 + node.spec_x()
            &&& a0.board@.grid[a0.board@.history.last() as int] == Some(opponent(a0.board@.next))
            &&& find_child(nodes, nodes[node.parent as int].child, nodes.len(), node.spec_x(), node.spec_y())
                == Some(c)
        }),
        a1.stepped_back_from(&a0),
        a1.lib_nodes == a0.lib_nodes,
        a1.is_db_mode == a0.is_db_mode,
        a2.stepped_forward_from(&a1, moved),
    ensures
        moved,
        a2.board@ == a0.board@,
        a2.current_node_idx == a0.current_node_idx,
{
    let nodes = a0.lib_nodes->0@;
    let node = nodes[a0.current_node_idx->0 as int];
    let last = a0.board@.history.last();
    assert(a1.board@ == a0.board@.undone());
    assert(a1.board@.future.last() == last);
    assert((last % 15) as i8 == node.spec_x() && (last / 15) as i8 == node.spec_y());
    crate::board::lemma_redo_after_undo(a0.board@);
}

} // verus!
