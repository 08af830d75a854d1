use vstd::prelude::*;
use std::collections::HashMap;
use crate::vcf::keytable::KeyTable;
use std::collections::hash_map::DefaultHasher;
use std::hash::{Hash, Hasher};
use std::sync::Arc;
use std::sync::atomic::AtomicBool;
use std::time::Duration;
use crate::vcf::model::{BOARD_CELLS, BOARD_SIZE};
use crate::text::{push_str, push_dec, dec_text};
use crate::vcf::blackforbiddenmove::{
    dir, on_board, cell, kind_name, BlackForbiddenKind, placed_forbidden, placed_verdict, forbidden_move, forbidden_cells,
    is_forbidden, forbidden_points,
};
pub use crate::vcf::lines::BitBoard;
use crate::vcf::lines::{five_c, makes_four_c, is_color, dir_of, lemma_unit_mul, straight_four_c, four_count_c};

verus! {

/// An empty cell.
pub const EMPTY: u8 = 0;

/// A black stone.
pub const BLACK: u8 = 1;

/// A white stone.
pub const WHITE: u8 = 2;

/// A move of a solution: column, row and colour.
#[derive(Clone, Copy, Debug, PartialEq, Eq, Structural)]
pub struct Move {
    pub x: usize,
    pub y: usize,
    pub color: u8,
}

/// Result of a search.
#[derive(Debug)]
pub enum SolveOutcome {
    Found(Vec<Move>),
    NotFound,
    Timeout,
    Cancelled,
}

/// How the search deepens: `Fast` and `Long` jump ahead past depth 21,
/// `Shortest` tries every odd depth; `Long` keeps a table by position only.
#[derive(Clone, Copy, Debug, PartialEq, Eq, Structural)]
pub enum SearchMode {
    Fast,
    Shortest,
    Long,
}

/// Number of cells of `cells` that hold `v`.
pub open spec fn count_cells(cells: Seq<u8>, v: u8) -> nat {
    cells.filter(is_value_of(v)).len()
}

/// The test "is `v`".
pub open spec fn is_value_of(v: u8) -> spec_fn(u8) -> bool {
    |c: u8| c == v
}

/// "石数が不正です（黒 " (stone counts are inconsistent (black ).
pub open spec fn bad_count_head() -> Seq<char> {
    seq!['石', '数', 'が', '不', '正', 'で', 'す', '（', '黒', ' ']
}

/// " / 白 " ( / white ).
pub open spec fn bad_count_mid() -> Seq<char> {
    seq![' ', '/', ' ', '白', ' ']
}

/// The message for boards whose stone counts fit neither side to move.
pub open spec fn bad_count_message(black: nat, white: nat) -> Seq<char> {
    bad_count_head() + dec_text(black) + bad_count_mid() + dec_text(white) + seq!['）']
}

fn count_color(board: &[u8; 225], v: u8) -> (n: usize)
    ensures
        n == count_cells(board@, v),
        n <= 225,
{
    let ghost f = is_value_of(v);
    let mut n: usize = 0;
    let mut i: usize = 0;
    while i < BOARD_CELLS
        invariant
            i <= 225,
            f == is_value_of(v),
            n == board@.take(i as int).filter(f).len(),
            n <= i,
        decreases 225 - i,
    {
        proof {
            assert(board@.take(i + 1).drop_last() =~= board@.take(i as int));
            reveal_with_fuel(Seq::<_>::filter, 1);
        }
        if board[i] == v {
            n += 1;
        }
        i += 1;
    }
    proof {
        assert(board@.take(225) =~= board@);

    }
    n
}

/// The side to move: Black when both sides have as many stones, White when
/// Black has one more; any other count is an error naming both counts.
pub fn side_to_move(board: &[u8; 225]) -> (r: Result<u8, String>)
    ensures
        ({
            let black = count_cells(board@, BLACK);
            let white = count_cells(board@, WHITE);
            match r {
                Ok(c) => (black == white && c == BLACK) || (black == white + 1 && c == WHITE),
                Err(msg) => black != white && black != white + 1 && msg@ == bad_count_message(black, white),
            }
        }),
{
    let black = count_color(board, BLACK);
    let white = count_color(board, WHITE);
    if black >= white && black - white == 0 {
        Ok(BLACK)
    } else if black >= white && black - white == 1 {
        Ok(WHITE)
    } else {
        let mut msg = String::new();
        push_str(&mut msg, "石数が不正です（黒 ");
        push_dec(&mut msg, black);
        push_str(&mut msg, " / 白 ");
        push_dec(&mut msg, white);
        push_str(&mut msg, "）");
        proof {
            reveal_strlit("石数が不正です（黒 ");
            reveal_strlit(" / 白 ");
            reveal_strlit("）");
            assert(msg@ =~= bad_count_message(black as nat, white as nat));
        }
        Err(msg)
    }
}

/// The other colour (White for anything but Black).
pub open spec fn other_spec(color: u8) -> u8 {
    if color == BLACK {
        WHITE
    } else {
        BLACK
    }
}

/// The other colour: White for Black, Black otherwise.
pub fn other(color: u8) -> (r: u8)
    ensures
        r == other_spec(color),
{
    if color == BLACK {
        WHITE
    } else {
        BLACK
    }
}

/// Column and row of a cell index.
pub fn xy(idx: usize) -> (r: (usize, usize))
    ensures
        r.0 == idx % 15,
        r.1 == idx / 15,
{
    (idx % BOARD_SIZE, idx / BOARD_SIZE)
}

/// Cell index of (x, y), if it is on the board.
pub fn index(x: isize, y: isize) -> (r: Option<usize>)
    ensures
        r == (if 0 <= x < 15 && 0 <= y < 15 {
            Some((y * 15 + x) as usize)
        } else {
            None::<usize>
        }),
{
    if x >= 0 && x < BOARD_SIZE as isize && y >= 0 && y < BOARD_SIZE as isize {
        Some(y as usize * BOARD_SIZE + x as usize)
    } else {
        None
    }
}

/// Bounding box (min x, max x, min y, max y) grown to hold (x, y).
pub open spec fn expanded(bounds: Option<(usize, usize, usize, usize)>, x: usize, y: usize) -> (usize, usize, usize, usize) {
    match bounds {
        None => (x, x, y, y),
        Some((a, b, c, d)) => (
            if x < a { x } else { a },
            if x > b { x } else { b },
            if y < c { y } else { c },
            if y > d { y } else { d },
        ),
    }
}

/// The bounding box grown to hold (x, y).
pub fn expand_bounds(bounds: Option<(usize, usize, usize, usize)>, x: usize, y: usize) -> (r: (usize, usize, usize, usize))
    ensures
        r == expanded(bounds, x, y),
{
    match bounds {
        None => (x, x, y, y),
        Some((min_x, max_x, min_y, max_y)) => (
            if x < min_x { x } else { min_x },
            if x > max_x { x } else { max_x },
            if y < min_y { y } else { min_y },
            if y > max_y { y } else { max_y },
        ),
    }
}

/// `a + b` modulo 2^64.
pub open spec fn add64(a: u64, b: u64) -> u64 {
    ((a as nat + b as nat) % 0x1_0000_0000_0000_0000nat) as u64
}

/// `a * b` modulo 2^64.
pub open spec fn mul64(a: u64, b: u64) -> u64 {
    ((a as nat * b as nat) % 0x1_0000_0000_0000_0000nat) as u64
}

/// The SplitMix64 mixing function.
pub open spec fn splitmix(v: u64) -> u64 {
    let a = add64(v, 0x9e37_79b9_7f4a_7c15);
    let b = mul64(a ^ (a >> 30u64), 0xbf58_476d_1ce4_e5b9);
    let c = mul64(b ^ (b >> 27u64), 0x94d0_49bb_1331_11eb);
    c ^ (c >> 31u64)
}

/// One SplitMix64 step (used to seed the search's Zobrist keys).
pub fn splitmix64(value: u64) -> (r: u64)
    ensures
        r == splitmix(value),
{
    let mut value = value;
    value = value.wrapping_add(0x9e37_79b9_7f4a_7c15);
    value = (value ^ (value >> 30)).wrapping_mul(0xbf58_476d_1ce4_e5b9);
    value = (value ^ (value >> 27)).wrapping_mul(0x94d0_49bb_1331_11eb);
    value ^ (value >> 31)
}

/// The deepest depth tried: an even depth is lowered to the odd one below
/// (at least 1), since only the attacker's moves end a search.
pub open spec fn odd_depth(max_depth: usize) -> int {
    if max_depth % 2 == 0 {
        if max_depth >= 2 {
            max_depth - 1
        } else {
            1
        }
    } else {
        max_depth as int
    }
}

/// The odd numbers 1, 3, ... up to `m`.
pub open spec fn odd_upto(m: int) -> Seq<usize> {
    Seq::new(if m >= 1 { ((m + 1) / 2) as nat } else { 0 }, |i: int| (2 * i + 1) as usize)
}

/// `s` with `m` appended unless it already ends with `m`.
pub open spec fn ending_at(s: Seq<usize>, m: int) -> Seq<usize> {
    if s.len() > 0 && s.last() == m {
        s
    } else {
        s.push(m as usize)
    }
}

/// Every odd depth up to the deepest.
pub open spec fn linear_schedule(max_depth: usize) -> Seq<usize> {
    ending_at(odd_upto(odd_depth(max_depth)), odd_depth(max_depth))
}

/// Depths 29, 37, 45, ... below `m`.
pub open spec fn long_steps(m: int) -> Seq<usize> {
    Seq::new(if m > 29 { ((m - 30) / 8 + 1) as nat } else { 0 }, |i: int| (29 + 8 * i) as usize)
}

/// Every odd depth up to 21, then steps of 8 from 29, then the deepest.
pub open spec fn jump_schedule(max_depth: usize) -> Seq<usize> {
    let m = odd_depth(max_depth);
    ending_at(odd_upto(if m < 21 { m } else { 21 }) + long_steps(m), m)
}

proof fn lemma_step_bound(m: int, k: int)
    requires
        k >= 0,
        29 + 8 * k < m,
    ensures
        k <= (m - 30) / 8,
{
    assert(k <= (m - 30) / 8) by (nonlinear_arith)
        requires
            k >= 0,
            29 + 8 * k < m,
    ;
}

proof fn lemma_steps_count(m: int, k: int)
    requires
        k >= 0,
        m >= 1,
        29 + 8 * k >= m,
        k == 0 || 29 + 8 * (k - 1) < m,
    ensures
        k == (if m > 29 { (m - 30) / 8 + 1 } else { 0 }),
{
    if m > 29 {
        assert(k == (m - 30) / 8 + 1) by (nonlinear_arith)
            requires
                k >= 0,
                m > 29,
                29 + 8 * k >= m,
                k == 0 || 29 + 8 * (k - 1) < m,
        ;
    }
}

/// The depths of a `Shortest` search: every odd depth up to the deepest.
/// The state a search starts from on `board`.
pub open spec fn start_state(board: Seq<u8>) -> SearchState {
    SearchState {
        cells: padded(board),
        hash: board_hash(board, 225),
        bounds: board_bounds(board, 225),
        saved: Seq::empty(),
    }
}

/// The first depth tried is 1.
proof fn lemma_schedule_starts_at_one(max_depth: usize)
    ensures
        linear_schedule(max_depth).len() >= 1,
        linear_schedule(max_depth)[0] == 1,
{
    let m = odd_depth(max_depth);
    assert(m >= 1);
    let s = odd_upto(m);
    assert(s.len() >= 1);
    assert(s[0] == 1);
}

/// With a deepest depth of at least 3, the second depth tried is 3.
proof fn lemma_schedule_has_three(max_depth: usize)
    requires
        max_depth >= 3,
    ensures
        linear_schedule(max_depth).len() >= 2,
        linear_schedule(max_depth)[1] == 3,
{
    let m = odd_depth(max_depth);
    assert(m >= 3);
    let s = odd_upto(m);
    assert(s.len() >= 2);
    assert(s[1] == 3);
}

pub fn linear_depth_schedule(max_depth: usize) -> (depths: Vec<usize>)
    ensures
        depths@ == linear_schedule(max_depth),
{
    let max_depth = if max_depth % 2 == 0 {
        if max_depth >= 2 {
            max_depth - 1
        } else {
            1
        }
    } else {
        max_depth
    };
    let mut depths: Vec<usize> = Vec::new();
    let mut d: usize = 1;
    loop
        invariant_except_break
            d % 2 == 1,
            1 <= d <= max_depth,
            max_depth % 2 == 1,
            depths@ == odd_upto(d as int - 2),
        ensures
            depths@ == odd_upto(max_depth as int),
        decreases max_depth - d,
    {
        proof {
            assert(odd_upto(d as int) =~= odd_upto(d as int - 2).push(d));
        }
        depths.push(d);
        if max_depth - d < 2 {
            break;
        }
        d += 2;
    }
    if depths.len() == 0 || depths[depths.len() - 1] != max_depth {
        depths.push(max_depth);
    }
    depths
}

/// The depths of a `Fast` or `Long` search: every odd depth up to 21, then
/// 29, 37, ... below the deepest, then the deepest.
pub fn depth_schedule(max_depth: usize) -> (depths: Vec<usize>)
    requires
        odd_depth(max_depth) <= 29 || 29 + 8 * ((odd_depth(max_depth) - 30) / 8) + 8 <= usize::MAX,
    ensures
        depths@ == jump_schedule(max_depth),
{
    let max_depth = if max_depth % 2 == 0 {
        if max_depth >= 2 {
            max_depth - 1
        } else {
            1
        }
    } else {
        max_depth
    };
    let top = if max_depth < 21 {
        max_depth
    } else {
        21
    };
    let mut depths: Vec<usize> = Vec::new();
    let mut d: usize = 1;
    while d <= top
        invariant
            d % 2 == 1,
            1 <= d <= top + 2,
            top % 2 == 1,
            top <= 21,
            depths@ == odd_upto(d as int - 2),
        decreases top + 2 - d,
    {
        proof {
            assert(odd_upto(d as int) =~= odd_upto(d as int - 2).push(d));
        }
        depths.push(d);
        d += 2;
    }
    proof {
        assert(depths@ =~= odd_upto(top as int));
    }
    let ghost base = depths@;
    let ghost m = max_depth as int;
    let mut depth: usize = 29;
    let mut k: usize = 0;
    while depth < max_depth
        invariant
            m == max_depth,
            depth == 29 + 8 * k,
            k == 0 || 29 + 8 * (k - 1) < m,
            depths@ == base + Seq::new(k as nat, |i: int| (29 + 8 * i) as usize),
            m <= 29 || 29 + 8 * ((m - 30) / 8) + 8 <= usize::MAX,
        decreases max_depth + 8 - depth,
    {
        proof {
            lemma_step_bound(m, k as int);
            assert(Seq::new((k + 1) as nat, |i: int| (29 + 8 * i) as usize) =~= Seq::new(
                k as nat,
                |i: int| (29 + 8 * i) as usize,
            ).push(depth));
        }
        depths.push(depth);
        depth += 8;
        k += 1;
    }
    proof {
        lemma_steps_count(m, k as int);
        assert(Seq::new(k as nat, |i: int| (29 + 8 * i) as usize) =~= long_steps(m));
    }
    if depths.len() == 0 || depths[depths.len() - 1] != max_depth {
        depths.push(max_depth);
    }
    depths
}

// ---------------------------------------------------------------------------
// The search.

/// A clock reading (`web_time::Instant`).
#[verifier::external_type_specification]
#[verifier::external_body]
pub struct ExClockReading(web_time::Instant);

/// `web_time::Instant::now`: the current time. It depends on the clock, so
/// nothing is stated of it.
#[verifier::external_body]
fn clock_now() -> web_time::Instant {
    web_time::Instant::now()
}

/// `web_time::Instant::elapsed`: the time since `start`. It depends on the
/// clock, so nothing is stated of it.
#[verifier::external_body]
fn elapsed_since(start: &web_time::Instant) -> Duration {
    start.elapsed()
}

/// `Duration >= Duration` (std's `PartialOrd::ge` on durations). Verus sees
/// nothing inside a `Duration`, so nothing is stated of the answer.
#[verifier::external_body]
fn duration_at_least(a: &Duration, b: &Duration) -> bool {
    *a >= *b
}


/// `<usize as Hash>::hash` into a `DefaultHasher`. What it feeds the hasher
/// depends on the width of `usize` on the machine, so nothing is stated.
#[verifier::external_body]
fn hash_usize(v: usize, state: &mut DefaultHasher) {
    v.hash(state)
}

/// Whether every cell holds empty, black or white.
pub open spec fn valid_board(b: Seq<u8>) -> bool {
    forall|i: int| 0 <= i < b.len() ==> #[trigger] b[i] == EMPTY || b[i] == BLACK || b[i] == WHITE
}

/// The `n`-th value of the SplitMix64 sequence that seeds the keys.
pub open spec fn key_seed(n: nat) -> u64
    decreases n,
{
    if n == 0 {
        0x8f3c_7a21_d5e6_b409
    } else {
        splitmix(key_seed((n - 1) as nat))
    }
}

/// The Zobrist key of a stone of colour `c` on cell `i` (0 for no stone):
/// cell `i` takes the outputs `2i + 1` and `2i + 2` of the seed sequence.
pub open spec fn search_key(i: int, c: int) -> u64 {
    if c == 0 {
        0
    } else {
        key_seed((2 * i + c) as nat)
    }
}

/// The XOR of the keys of the stones on the first `n` cells.
pub open spec fn board_hash(b: Seq<u8>, n: int) -> u64
    decreases n,
{
    if n <= 0 {
        0
    } else {
        let h = board_hash(b, n - 1);
        if b[n - 1] != EMPTY {
            h ^ search_key(n - 1, b[n - 1] as int)
        } else {
            h
        }
    }
}

/// The bounding box of the stones on the first `n` cells.
pub open spec fn board_bounds(b: Seq<u8>, n: int) -> Option<(usize, usize, usize, usize)>
    decreases n,
{
    if n <= 0 {
        None
    } else {
        let p = board_bounds(b, n - 1);
        if b[n - 1] != EMPTY {
            Some(expanded(p, ((n - 1) % 15) as usize, ((n - 1) / 15) as usize))
        } else {
            p
        }
    }
}

/// Number of empty cells among the first `n`.
pub open spec fn empties(b: Seq<u8>, n: int) -> int
    decreases n,
{
    if n <= 0 {
        0
    } else {
        empties(b, n - 1) + if b[n - 1] == EMPTY { 1int } else { 0 }
    }
}

/// What a search works on: the cells, the position's hash, the bounding box
/// of the stones and the boxes saved by the moves not yet taken back.
pub struct SearchState {
    pub cells: Seq<u8>,
    pub hash: u64,
    pub bounds: Option<(usize, usize, usize, usize)>,
    pub saved: Seq<Option<(usize, usize, usize, usize)>>,
}

/// The state after a stone of `color` is put on the empty cell `idx`.
pub open spec fn after_put(s: SearchState, idx: int, color: u8) -> SearchState {
    SearchState {
        cells: s.cells.update(idx, color),
        hash: s.hash ^ search_key(idx, color as int),
        bounds: Some(expanded(s.bounds, (idx % 15) as usize, (idx / 15) as usize)),
        saved: s.saved.push(s.bounds),
    }
}

/// The state after the stone of `color` on `idx` is taken back.
pub open spec fn after_remove(s: SearchState, idx: int, color: u8) -> SearchState {
    SearchState {
        cells: s.cells.update(idx, EMPTY),
        hash: s.hash ^ search_key(idx, color as int),
        bounds: s.saved.last(),
        saved: s.saved.drop_last(),
    }
}

/// A key for the table of positions known to fail: the position's hash, the
/// side to move and a digest of the opponent's winning cells.
#[derive(Clone, Copy, Debug)]
struct TtKey {
    hash: u64,
    turn: u8,
    opponent_wins: u64,
}

/// Result of one step of the search.
enum Search {
    Found(Vec<Move>),
    NotFound,
    Timeout,
    Cancelled,
}

/// What the search is told each time it asks whether to go on.
#[derive(Clone, Copy, Debug, PartialEq, Eq, Structural)]
pub enum Signal {
    Go,
    TimeUp,
    Cancel,
}

/// `stop` never tells the search to stop.
pub open spec fn never_stops<F: Fn() -> Signal>(stop: F) -> bool {
    forall|g: Signal| #[trigger] stop.ensures((), g) ==> g == Signal::Go
}

/// `stop` answers `g` whenever it is asked.
pub open spec fn always_answers<F: Fn() -> Signal>(stop: F, g: Signal) -> bool {
    forall|h: Signal| #[trigger] stop.ensures((), h) ==> h == g
}

/// `stop` may be asked at any time.
pub open spec fn askable<F: Fn() -> Signal>(stop: F) -> bool {
    stop.requires(())
}

/// What the clock and the cancel flag say: time up once `limit` has passed
/// since `started`, cancelled once `cancel` is set, go on otherwise.
fn clock_signal(started: &web_time::Instant, limit: &Duration, cancel: &AtomicBool) -> Signal {
    let elapsed = elapsed_since(started);
    if duration_at_least(&elapsed, limit) {
        Signal::TimeUp
    } else if cancel.load(std::sync::atomic::Ordering::Relaxed) {
        Signal::Cancel
    } else {
        Signal::Go
    }
}

/// A VCF search over one position.
pub struct Solver {
    board: BitBoard,
    hash: u64,
    zobrist: [[u64; 3]; 225],
    bounds: Option<(usize, usize, usize, usize)>,
    bounds_stack: Vec<Option<(usize, usize, usize, usize)>>,
    tt: KeyTable,
    legacy_tt: HashMap<u64, usize>,
    pv: KeyTable,
    mode: SearchMode,
}

impl View for Solver {
    type V = SearchState;

    closed spec fn view(&self) -> SearchState {
        SearchState {
            cells: self.board.cells(),
            hash: self.hash,
            bounds: self.bounds,
            saved: self.bounds_stack@,
        }
    }
}

impl Solver {
    /// The keys the solver hashes positions with.
    pub closed spec fn keys_ok(&self) -> bool {
        forall|i: int, c: int| 0 <= i < 225 && 0 <= c < 3 ==> #[trigger] self.zobrist[i][c] == search_key(i, c)
    }

    /// The tables of the search (positions found lost, best attacks) are
    /// those of `other`, as are the keys and the mode.
    pub closed spec fn same_tables(&self, other: Solver) -> bool {
        &&& self.tt == other.tt
        &&& self.legacy_tt == other.legacy_tt
        &&& self.pv == other.pv
        &&& self.zobrist == other.zobrist
        &&& self.mode == other.mode
    }

    /// The search mode.
    pub closed spec fn search_mode(&self) -> SearchMode {
        self.mode
    }

    /// Well-formedness: keys as seeded and every cell empty, black or white.
    pub open spec fn wf(&self) -> bool {
        &&& self.keys_ok()
        &&& valid_board(self@.cells)
        &&& box_ok(self@.bounds)
        &&& forall|i: int| 0 <= i < self@.saved.len() ==> #[trigger] box_ok(self@.saved[i])
    }
}


/// Whether a bounding box lies on the board.
pub open spec fn box_ok(b: Option<(usize, usize, usize, usize)>) -> bool {
    match b {
        None => true,
        Some((a, bx, c, d)) => a <= bx < 15 && c <= d < 15,
    }
}

/// A board given as 225 cells, padded with empty cells to the 256 the bit
/// masks hold.
pub open spec fn padded(b: Seq<u8>) -> Seq<u8> {
    b + Seq::new(31, |i: int| EMPTY)
}

/// The rectangle searched for moves: the stones' box grown by two on every
/// side (clipped to the board), or the 7x7 centre of an empty board.
pub open spec fn range_of(bounds: Option<(usize, usize, usize, usize)>) -> (usize, usize, usize, usize) {
    match bounds {
        None => (4, 10, 4, 10),
        Some((a, b, c, d)) => (
            if a >= 2 { (a - 2) as usize } else { 0 },
            if b + 2 <= 14 { (b + 2) as usize } else { 14 },
            if c >= 2 { (c - 2) as usize } else { 0 },
            if d + 2 <= 14 { (d + 2) as usize } else { 14 },
        ),
    }
}

/// Number of cells of the rectangle `r`.
pub open spec fn range_len(r: (usize, usize, usize, usize)) -> int {
    (r.1 - r.0 + 1) * (r.3 - r.2 + 1)
}

/// The `k`-th cell of the rectangle `r`, row by row.
pub open spec fn range_cell(r: (usize, usize, usize, usize), k: int) -> int {
    (r.2 + k / (r.1 - r.0 + 1)) * 15 + r.0 + k % (r.1 - r.0 + 1)
}

/// Score of the `k`-th neighbour of (x, y) (`k` from 0 to 8, row by row,
/// 4 being (x, y) itself): 10 for a stone, 5 more for a stone of `color`.
pub open spec fn neighbour_score(b: Seq<u8>, x: int, y: int, k: int, color: u8) -> int {
    let nx = x + k % 3 - 1;
    let ny = y + k / 3 - 1;
    if k == 4 || !on_board(nx, ny) {
        0
    } else {
        (if b[cell(nx, ny)] != EMPTY { 10int } else { 0int }) + (if b[cell(nx, ny)] == color { 5int } else { 0int })
    }
}

/// Sum of the scores of the first `n` neighbours.
pub open spec fn neighbour_sum(b: Seq<u8>, x: int, y: int, n: int, color: u8) -> int
    decreases n,
{
    if n <= 0 {
        0
    } else {
        neighbour_sum(b, x, y, n - 1, color) + neighbour_score(b, x, y, n - 1, color)
    }
}

/// `|a - b|`.
pub open spec fn dist(a: int, b: int) -> int {
    if a >= b {
        a - b
    } else {
        b - a
    }
}

/// The order in which moves are tried: crowded cells first, then cells near
/// the centre.
pub open spec fn priority_of(b: Seq<u8>, x: int, y: int, color: u8) -> int {
    neighbour_sum(b, x, y, 9, color) - (dist(x, 7) + dist(y, 7))
}

/// Whether a stone of `color` on the empty cell `i` would win.
pub open spec fn wins_on(b: Seq<u8>, i: int, color: u8) -> bool {
    b[i] == EMPTY && five_c(b.update(i, color), i % 15, i / 15, color)
}

/// The winning cells of `color` among the first `k` cells of `r`, in order.
pub open spec fn wins_upto(b: Seq<u8>, color: u8, r: (usize, usize, usize, usize), k: int) -> Seq<usize>
    decreases k,
{
    if k <= 0 {
        Seq::empty()
    } else {
        let p = wins_upto(b, color, r, k - 1);
        let i = range_cell(r, k - 1);
        if wins_on(b, i, color) {
            p.push(i as usize)
        } else {
            p
        }
    }
}

/// The cells of the searched rectangle where a stone of `color` would win,
/// row by row.
pub open spec fn winning_cells(b: Seq<u8>, color: u8, bounds: Option<(usize, usize, usize, usize)>) -> Seq<usize> {
    wins_upto(b, color, range_of(bounds), range_len(range_of(bounds)))
}

proof fn lemma_range_cell(r: (usize, usize, usize, usize), k: int)
    requires
        r.0 <= r.1 <= 14,
        r.2 <= r.3 <= 14,
        0 <= k < range_len(r),
    ensures
        r.0 <= r.0 + k % (r.1 - r.0 + 1) <= r.1,
        r.2 <= r.2 + k / (r.1 - r.0 + 1) <= r.3,
        0 <= range_cell(r, k) < 225,
        range_cell(r, k) % 15 == r.0 + k % (r.1 - r.0 + 1),
        range_cell(r, k) / 15 == r.2 + k / (r.1 - r.0 + 1),
{
    let w = r.1 - r.0 + 1;
    let h = r.3 - r.2 + 1;
    assert(0 <= k / w < h && 0 <= k % w < w) by (nonlinear_arith)
        requires
            w >= 1,
            h >= 1,
            0 <= k < w * h,
    ;
    let x = r.0 + k % w;
    let y = r.2 + k / w;
    assert((y * 15 + x) % 15 == x && (y * 15 + x) / 15 == y) by (nonlinear_arith)
        requires
            0 <= x < 15,
            0 <= y,
    ;
}

proof fn lemma_range_ok(bounds: Option<(usize, usize, usize, usize)>)
    requires
        box_ok(bounds),
    ensures
        range_of(bounds).0 <= range_of(bounds).1 <= 14,
        range_of(bounds).2 <= range_of(bounds).3 <= 14,
        1 <= range_len(range_of(bounds)) <= 225,
{
    let r = range_of(bounds);
    assert(1 <= (r.1 - r.0 + 1) * (r.3 - r.2 + 1) <= 225) by (nonlinear_arith)
        requires
            r.0 <= r.1 <= 14,
            r.2 <= r.3 <= 14,
    ;
}

proof fn lemma_board_bounds_ok(b: Seq<u8>, n: int)
    requires
        0 <= n <= 225,
    ensures
        box_ok(board_bounds(b, n)),
    decreases n,
{
    if n > 0 {
        lemma_board_bounds_ok(b, n - 1);
    }
}

/// Taking back a stone just put restores everything the search works on.
pub proof fn lemma_remove_undoes_put(s: SearchState, idx: int, color: u8)
    requires
        0 <= idx < s.cells.len(),
        s.cells[idx] == EMPTY,
    ensures
        after_remove(after_put(s, idx, color), idx, color) == s,
{
    let t = after_remove(after_put(s, idx, color), idx, color);
    assert(t.cells =~= s.cells);
    assert(t.saved =~= s.saved);
    let h = s.hash;
    let k = search_key(idx, color as int);
    assert((h ^ k) ^ k == h) by (bit_vector);
}

impl Solver {
    /// A solver for `board` in search mode `mode`.
    pub fn new(board: [u8; 225], mode: SearchMode) -> (s: Self)
        requires
            valid_board(board@),
        ensures
            s.wf(),
            s.search_mode() == mode,
            s@.cells == padded(board@),
            s@.hash == board_hash(board@, 225),
            s@.bounds == board_bounds(board@, 225),
            s@.saved == Seq::<Option<(usize, usize, usize, usize)>>::empty(),
    {
        let mut zobrist = [[0u64; 3]; 225];
        let mut seed: u64 = 0x8f3c_7a21_d5e6_b409;
        let mut i: usize = 0;
        while i < BOARD_CELLS
            invariant
                i <= 225,
                seed == key_seed((2 * i) as nat),
                forall|j: int, c: int| 0 <= j < i && 0 <= c < 3 ==> #[trigger] zobrist[j][c] == search_key(j, c),
            decreases 225 - i,
        {
            let ghost n = (2 * i) as nat;
            seed = splitmix64(seed);
            let a = seed;
            seed = splitmix64(seed);
            let b = seed;
            proof {
                assert(key_seed(n + 1) == splitmix(key_seed(n)));
                assert(key_seed(n + 2) == splitmix(key_seed(n + 1)));
                assert(a == search_key(i as int, 1));
                assert(b == search_key(i as int, 2));
                assert(search_key(i as int, 0) == 0);
            }
            let row: [u64; 3] = [0, a, b];
            zobrist[i] = row;
            proof {
                assert forall|j: int, c: int| 0 <= j <= i && 0 <= c < 3 implies #[trigger] zobrist[j][c] == search_key(j, c) by {
                    if j == i {
                        assert(zobrist[j] == row);
                    }
                }
            }
            i += 1;
        }
        let mut hash: u64 = 0;
        let mut bounds: Option<(usize, usize, usize, usize)> = None;
        let mut idx: usize = 0;
        while idx < BOARD_CELLS
            invariant
                idx <= 225,
                valid_board(board@),
                forall|j: int, c: int| 0 <= j < 225 && 0 <= c < 3 ==> #[trigger] zobrist[j][c] == search_key(j, c),
                hash == board_hash(board@, idx as int),
                bounds == board_bounds(board@, idx as int),
            decreases 225 - idx,
        {
            let stone = board[idx];
            if stone != EMPTY {
                hash = hash ^ zobrist[idx][stone as usize];
                let (x, y) = xy(idx);
                bounds = Some(expand_bounds(bounds, x, y));
            }
            idx += 1;
        }
        let s = Solver {
            board: BitBoard::from_cells(&board),
            hash,
            zobrist,
            bounds,
            bounds_stack: Vec::with_capacity(128),
            tt: KeyTable::new(),
            legacy_tt: HashMap::new(),
            pv: KeyTable::new(),
            mode,
        };
        proof {
            assert(s@.cells =~= padded(board@));
            lemma_board_bounds_ok(board@, 225);
        }
        s
    }


    /// Puts a stone of `color` on the empty cell `idx`, saving the box.
    pub fn put(&mut self, idx: usize, color: u8)
        requires
            old(self).wf(),
            idx < 225,
            is_color(color),
            old(self)@.cells[idx as int] == EMPTY,
        ensures
            final(self).wf(),
            final(self).search_mode() == old(self).search_mode(),
            final(self).same_tables(*old(self)),
            final(self)@ == after_put(old(self)@, idx as int, color),
    {
        self.bounds_stack.push(self.bounds);
        let (x, y) = xy(idx);
        self.bounds = Some(expand_bounds(self.bounds, x, y));
        self.board.set(idx, color);
        self.hash = self.hash ^ self.zobrist[idx][color as usize];
        proof {
            assert(self@.saved =~= old(self)@.saved.push(old(self)@.bounds));
        }
    }

    /// Takes back the stone of `color` on `idx` and restores the box saved
    /// when it was put.
    pub fn remove(&mut self, idx: usize, color: u8)
        requires
            old(self).wf(),
            idx < 225,
            is_color(color),
            old(self)@.cells[idx as int] == color,
            old(self)@.saved.len() > 0,
        ensures
            final(self).wf(),
            final(self).search_mode() == old(self).search_mode(),
            final(self).same_tables(*old(self)),
            final(self)@ == after_remove(old(self)@, idx as int, color),
    {
        self.hash = self.hash ^ self.zobrist[idx][color as usize];
        self.board.clear(idx);
        self.bounds = self.bounds_stack.pop().unwrap();
        proof {
            assert(self@.saved =~= old(self)@.saved.drop_last());
        }
    }

    /// The rectangle to look for moves in.
    pub fn active_range(&self) -> (r: (usize, usize, usize, usize))
        requires
            self.wf(),
        ensures
            r == range_of(self@.bounds),
    {
        match self.bounds {
            None => (4, 10, 4, 10),
            Some((min_x, max_x, min_y, max_y)) => (
                if min_x >= 2 { min_x - 2 } else { 0 },
                if max_x + 2 <= BOARD_SIZE - 1 { max_x + 2 } else { BOARD_SIZE - 1 },
                if min_y >= 2 { min_y - 2 } else { 0 },
                if max_y + 2 <= BOARD_SIZE - 1 { max_y + 2 } else { BOARD_SIZE - 1 },
            ),
        }
    }

    /// The order score of a stone of `color` on (x, y).
    fn priority(&self, x: usize, y: usize, color: u8) -> (p: i32)
        requires
            on_board(x as int, y as int),
        ensures
            p == priority_of(self@.cells, x as int, y as int, color),
    {
        cell_priority(&self.board, x, y, color)
    }

    /// The cells of the searched rectangle where a stone of `turn` wins.
    fn winning_moves(&self, turn: u8) -> (wins: Vec<usize>)
        requires
            self.wf(),
            is_color(turn),
        ensures
            wins@ == winning_cells(self@.cells, turn, self@.bounds),
    {
        let ghost cells = self@.cells;
        let (min_x, max_x, min_y, max_y) = self.active_range();
        let ghost r = (min_x, max_x, min_y, max_y);
        proof {
            lemma_range_ok(self@.bounds);
        }
        let w = max_x - min_x + 1;
        let n = w * (max_y - min_y + 1);
        let mut board = self.board;
        let mut wins: Vec<usize> = Vec::new();
        let mut k: usize = 0;
        while k < n
            invariant
                r == range_of(self@.bounds),
                r == (min_x, max_x, min_y, max_y),
                min_x <= max_x <= 14,
                min_y <= max_y <= 14,
                w == max_x - min_x + 1,
                n == range_len(r),
                k <= n,
                board.cells() == cells,
                is_color(turn),
                wins@ == wins_upto(cells, turn, r, k as int),
            decreases n - k,
        {
            proof {
                lemma_range_cell(r, k as int);
            }
            let x = min_x + k % w;
            let y = min_y + k / w;
            let idx = y * BOARD_SIZE + x;
            if board.is_empty(idx) {
                board.set(idx, turn);
                if board.check_win(x, y, turn) {
                    wins.push(idx);
                }
                board.clear(idx);
                proof {
                    assert(board.cells() =~= cells);
                }
            }
            k += 1;
        }
        wins
    }

}

/// Scan of the first `k` cells of the five-cell window that starts `s` steps
/// from (x, y) in direction (dx, dy): stones of `attacker`, empty cells (and
/// the last of them); the scan stops at the edge or at any other stone.
pub open spec fn defense_scan(b: Seq<u8>, x: int, y: int, dx: int, dy: int, s: int, k: int, attacker: u8) -> (bool, int, int, int)
    decreases k,
{
    if k <= 0 {
        (false, 0, 0, -1)
    } else {
        let p = defense_scan(b, x, y, dx, dy, s, k - 1, attacker);
        let pos = s + k - 1;
        let cx = x + dx * pos;
        let cy = y + dy * pos;
        if p.0 {
            p
        } else if !on_board(cx, cy) {
            (true, p.1, p.2, p.3)
        } else if b[cell(cx, cy)] == attacker {
            (p.0, p.1 + 1, p.2, p.3)
        } else if b[cell(cx, cy)] == EMPTY {
            (p.0, p.1, p.2 + 1, cell(cx, cy))
        } else {
            (true, p.1, p.2, p.3)
        }
    }
}

/// The window `j` through `last` (direction `j / 5`, starting `j % 5 - 4`
/// steps away) scanned whole.
pub open spec fn defense_window(b: Seq<u8>, attacker: u8, last: int, j: int) -> (bool, int, int, int) {
    defense_scan(b, last % 15, last / 15, dir((j / 5) as int).0, dir((j / 5) as int).1, j % 5 - 4, 5, attacker)
}

/// The cells that stop a four of `attacker` through `last`, over the first
/// `j` windows: the one empty cell of each window that holds four stones of
/// `attacker` and nothing else, each cell once, in the order found.
pub open spec fn defenses_upto(b: Seq<u8>, attacker: u8, last: int, j: int) -> Seq<usize>
    decreases j,
{
    if j <= 0 {
        Seq::empty()
    } else {
        let prev = defenses_upto(b, attacker, last, j - 1);
        let w = defense_window(b, attacker, last, j - 1);
        if !w.0 && w.1 == 4 && w.2 == 1 && !prev.contains(w.3 as usize) {
            prev.push(w.3 as usize)
        } else {
            prev
        }
    }
}

/// The cells that stop a four (or five) of `attacker` made through `last`.
pub open spec fn defense_cells(b: Seq<u8>, attacker: u8, last: int) -> Seq<usize> {
    defenses_upto(b, attacker, last, 20)
}

proof fn lemma_defense_scan_blocked(b: Seq<u8>, x: int, y: int, dx: int, dy: int, s: int, k: int, attacker: u8)
    requires
        0 <= k <= 5,
        defense_scan(b, x, y, dx, dy, s, k, attacker).0,
    ensures
        defense_scan(b, x, y, dx, dy, s, 5, attacker) == defense_scan(b, x, y, dx, dy, s, k, attacker),
    decreases 5 - k,
{
    if k < 5 {
        lemma_defense_scan_blocked(b, x, y, dx, dy, s, k + 1, attacker);
    }
}

/// Whether the cell `i` lies in the rectangle `r`.
pub open spec fn in_rect(r: (usize, usize, usize, usize), i: int) -> bool {
    0 <= i < 225 && r.0 <= i % 15 <= r.1 && r.2 <= i / 15 <= r.3
}

/// Whether the opponent's winning cells leave `i` as a move: they have
/// none, or `i` is their only one.
pub open spec fn stops(opponent_wins: Seq<usize>, i: int) -> bool {
    opponent_wins.len() == 0 || (opponent_wins.len() == 1 && opponent_wins[0] == i)
}

/// Whether a stone of `turn` on the empty cell `i` is a VCF attack: it wins,
/// or it leaves the opponent no win and makes a four (for Black, a four on a
/// cell that is not forbidden).
pub open spec fn attack_on(b: Seq<u8>, i: int, turn: u8, opponent_wins: Seq<usize>) -> bool {
    let b2 = b.update(i, turn);
    let x = i % 15;
    let y = i / 15;
    &&& b[i] == EMPTY
    &&& (five_c(b2, x, y, turn) || (stops(opponent_wins, i) && makes_four_c(b2, x, y, turn) && (turn == BLACK
        ==> placed_verdict(b2.subrange(0, 225), i, true) is None)))
}

/// Whether attack `i` is tried before attack `j`: higher priority first,
/// then the lower cell.
pub open spec fn tried_before(b: Seq<u8>, turn: u8, i: int, j: int) -> bool {
    let pi = priority_of(b, i % 15, i / 15, turn);
    let pj = priority_of(b, j % 15, j / 15, turn);
    pi > pj || (pi == pj && i < j)
}

/// `out` lists the attacks of `turn` in the searched rectangle, each once,
/// in the order they are tried.
pub open spec fn attack_list(b: Seq<u8>, turn: u8, opponent_wins: Seq<usize>, bounds: Option<(usize, usize, usize, usize)>, out: Seq<usize>) -> bool {
    let r = range_of(bounds);
    &&& forall|j: int| 0 <= j < out.len() ==> in_rect(r, #[trigger] out[j] as int) && attack_on(b, out[j] as int, turn, opponent_wins)
    &&& forall|i: int| in_rect(r, i) && attack_on(b, i, turn, opponent_wins) ==> #[trigger] out.contains(i as usize)
    &&& forall|j: int, k: int| 0 <= j < k < out.len() ==> tried_before(b, turn, #[trigger] out[j] as int, #[trigger] out[k] as int)
}

impl Solver {
    /// Scan of the window `j` through `last` for `vcf_defenses`.
    fn defense_window_at(&self, lx: usize, ly: usize, j: usize, attacker: u8) -> (r: (bool, usize, usize, usize))
        requires
            lx < 15,
            j < 20,
        ensures
            ({
                let w = defense_scan(self@.cells, lx as int, ly as int, dir((j / 5) as int).0, dir((j / 5) as int).1, j % 5 - 4, 5, attacker);
                &&& r.0 == w.0
                &&& r.1 == w.1
                &&& r.2 == w.2
                &&& (w.2 > 0 ==> r.3 == w.3 && 0 <= w.3 < 225 && self@.cells[w.3] == EMPTY)
            }),
    {
        let ghost b = self@.cells;
        let (dx, dy) = dir_of(j / 5);
        let start: isize = (j % 5) as isize - 4;
        if ly >= 20 {
            proof {
                lemma_unit_mul(dy as int, start as int);
                assert(-4 <= start <= 0);
                assert(-4 <= (dy as int) * (start as int) <= 4);
                assert(!on_board(lx + (dx as int) * (start as int), ly + (dy as int) * (start as int)));
                assert(defense_scan(b, lx as int, ly as int, dx as int, dy as int, start as int, 0, attacker) == (false, 0int, 0int, -1int));
                assert(defense_scan(b, lx as int, ly as int, dx as int, dy as int, start as int, 1, attacker) == (true, 0int, 0int, -1int));
                lemma_defense_scan_blocked(b, lx as int, ly as int, dx as int, dy as int, start as int, 1, attacker);
            }
            return (true, 0, 0, 0);
        }
        let mut stones: usize = 0;
        let mut empties: usize = 0;
        let mut empty: usize = 0;
        let mut i: isize = 0;
        while i < 5
            invariant
                b == self@.cells,
                lx < 15,
                ly < 20,
                j < 20,
                dx == dir((j / 5) as int).0,
                dy == dir((j / 5) as int).1,
                start == j % 5 - 4,
                0 <= i <= 5,
                ({
                    let w = defense_scan(b, lx as int, ly as int, dx as int, dy as int, start as int, i as int, attacker);
                    &&& !w.0
                    &&& stones == w.1
                    &&& empties == w.2
                    &&& stones + empties <= i
                    &&& (w.2 > 0 ==> empty == w.3 && 0 <= w.3 < 225 && b[w.3] == EMPTY)
                }),
            decreases 5 - i,
        {
            let pos = start + i;
            proof {
                lemma_unit_mul(dx as int, pos as int);
                lemma_unit_mul(dy as int, pos as int);
            }
            match index(lx as isize + dx * pos, ly as isize + dy * pos) {
                None => {
                    proof {
                        lemma_defense_scan_blocked(b, lx as int, ly as int, dx as int, dy as int, start as int, i + 1, attacker);
                    }
                    return (true, stones, empties, empty);
                },
                Some(idx) => {
                    let v = self.board.get(idx);
                    if v == attacker {
                        stones += 1;
                    } else if v == EMPTY {
                        empties += 1;
                        empty = idx;
                    } else {
                        proof {
                            lemma_defense_scan_blocked(b, lx as int, ly as int, dx as int, dy as int, start as int, i + 1, attacker);
                        }
                        return (true, stones, empties, empty);
                    }
                },
            }
            i += 1;
        }
        (false, stones, empties, empty)
    }

    /// The cells that stop the four (or five) that `attacker` made through
    /// `last`, each once, in the order the windows are scanned.
    fn vcf_defenses(&self, attacker: u8, last: usize) -> (defenses: Vec<usize>)
        ensures
            defenses@ == defense_cells(self@.cells, attacker, last as int),
            forall|i: int| 0 <= i < defenses@.len() ==> #[trigger] defenses@[i] < 225 && self@.cells[defenses@[i] as int] == EMPTY,
    {
        let ghost b = self@.cells;
        let (lx, ly) = xy(last);
        let mut seen = [false; 225];
        let mut defenses: Vec<usize> = Vec::new();
        let mut j: usize = 0;
        while j < 20
            invariant
                b == self@.cells,
                lx == last % 15,
                ly == last / 15,
                j <= 20,
                defenses@ == defenses_upto(b, attacker, last as int, j as int),
                forall|c: int| 0 <= c < 225 ==> (#[trigger] seen[c] <==> defenses@.contains(c as usize)),
                forall|i: int| 0 <= i < defenses@.len() ==> #[trigger] defenses@[i] < 225 && b[defenses@[i] as int] == EMPTY,
            decreases 20 - j,
        {
            let (blocked, stones, empties, empty) = self.defense_window_at(lx, ly, j, attacker);
            let ghost prev = defenses@;
            if !blocked && stones == 4 && empties == 1 && !seen[empty] {
                seen[empty] = true;
                defenses.push(empty);
                proof {
                    assert forall|c: int| 0 <= c < 225 implies (#[trigger] seen[c] <==> defenses@.contains(c as usize)) by {
                        if defenses@.contains(c as usize) && c != empty {
                            let t = choose|t: int| 0 <= t < defenses@.len() && defenses@[t] == c as usize;
                            assert(t < prev.len());
                            assert(prev.contains(c as usize));
                        }
                        if c != empty && prev.contains(c as usize) {
                            let t = choose|t: int| 0 <= t < prev.len() && prev[t] == c as usize;
                            assert(defenses@[t] == c as usize);
                        }
                        if c == empty {
                            assert(defenses@[prev.len() as int] == c as usize);
                        }
                    }
                }
            }
            j += 1;
        }
        defenses
    }

    /// The forbidden-move verdict for the black stone on (x, y).
    pub fn forbidden(&mut self, x: usize, y: usize, check_three: bool) -> (r: Option<BlackForbiddenKind>)
        requires
            y * 15 + x <= usize::MAX,
        ensures
            *final(self) == *old(self),
            r == placed_verdict(old(self)@.cells.subrange(0, 225), y * 15 + x, check_three),
    {
        let idx = y * BOARD_SIZE + x;
        let cells = self.board.to_cells();
        proof {
            assert(cells@ =~= self@.cells.subrange(0, 225));
        }
        placed_forbidden(cells, idx, check_three)
    }
}


/// Number of attacks of `turn` among the first `k` cells of `r`.
pub open spec fn attacks_upto_count(b: Seq<u8>, turn: u8, opponent_wins: Seq<usize>, r: (usize, usize, usize, usize), k: int) -> int
    decreases k,
{
    if k <= 0 {
        0
    } else {
        attacks_upto_count(b, turn, opponent_wins, r, k - 1) + if attack_on(b, range_cell(r, k - 1), turn, opponent_wins) {
            1int
        } else {
            0int
        }
    }
}

/// Number of attacks of `turn` in the searched rectangle.
pub open spec fn attack_count(b: Seq<u8>, turn: u8, opponent_wins: Seq<usize>, bounds: Option<(usize, usize, usize, usize)>) -> int {
    attacks_upto_count(b, turn, opponent_wins, range_of(bounds), range_len(range_of(bounds)))
}

/// Position of the cell `i` in the rectangle `r`, row by row.
pub open spec fn rect_pos(r: (usize, usize, usize, usize), i: int) -> int {
    (i / 15 - r.2) * (r.1 - r.0 + 1) + (i % 15 - r.0)
}

proof fn lemma_rect_pos(r: (usize, usize, usize, usize), i: int)
    requires
        r.0 <= r.1 <= 14,
        r.2 <= r.3 <= 14,
        in_rect(r, i),
    ensures
        0 <= rect_pos(r, i) < range_len(r),
        range_cell(r, rect_pos(r, i)) == i,
{
    let w = r.1 - r.0 + 1;
    let h = r.3 - r.2 + 1;
    let a = i / 15 - r.2;
    let c = i % 15 - r.0;
    assert(0 <= a < h && 0 <= c < w);
    assert(0 <= a * w + c < w * h && (a * w + c) / w == a && (a * w + c) % w == c) by (nonlinear_arith)
        requires
            0 <= a < h,
            0 <= c < w,
    ;
    assert(i == (i / 15) * 15 + i % 15);
}

proof fn lemma_cell_pos(r: (usize, usize, usize, usize), k: int)
    requires
        r.0 <= r.1 <= 14,
        r.2 <= r.3 <= 14,
        0 <= k < range_len(r),
    ensures
        in_rect(r, range_cell(r, k)),
        rect_pos(r, range_cell(r, k)) == k,
{
    lemma_range_cell(r, k);
    let w = r.1 - r.0 + 1;
    assert(k == (k / w) * w + k % w) by (nonlinear_arith)
        requires
            w >= 1,
    ;
}

proof fn lemma_pos_order(r: (usize, usize, usize, usize), i: int, j: int)
    requires
        r.0 <= r.1 <= 14,
        r.2 <= r.3 <= 14,
        in_rect(r, i),
        in_rect(r, j),
        rect_pos(r, i) < rect_pos(r, j),
    ensures
        i < j,
{
    let w = r.1 - r.0 + 1;
    let ai = i / 15 - r.2;
    let ci = i % 15 - r.0;
    let aj = j / 15 - r.2;
    let cj = j % 15 - r.0;
    assert(ai < aj || (ai == aj && ci < cj)) by (nonlinear_arith)
        requires
            0 <= ci < w,
            0 <= cj < w,
            0 <= ai,
            0 <= aj,
            ai * w + ci < aj * w + cj,
    ;
}

proof fn lemma_neighbours_skip_cell(b: Seq<u8>, x: int, y: int, n: int, color: u8, c: u8)
    requires
        on_board(x, y),
        b.len() >= 225,
        0 <= n <= 9,
    ensures
        neighbour_sum(b.update(cell(x, y), c), x, y, n, color) == neighbour_sum(b, x, y, n, color),
    decreases n,
{
    if n > 0 {
        lemma_neighbours_skip_cell(b, x, y, n - 1, color, c);
        let k = n - 1;
        let nx = x + k % 3 - 1;
        let ny = y + k / 3 - 1;
        if k != 4 && on_board(nx, ny) {
            assert(cell(nx, ny) != cell(x, y));
        }
    }
}

/// Whether `a` comes before `c`: the higher score first, then the lower cell.
pub open spec fn pair_before(a: (usize, i32), c: (usize, i32)) -> bool {
    a.1 > c.1 || (a.1 == c.1 && a.0 < c.0)
}

/// Whether the scored cells are in trying order.
pub open spec fn pairs_sorted(s: Seq<(usize, i32)>) -> bool {
    forall|j: int, l: int| 0 <= j < l < s.len() ==> pair_before(#[trigger] s[j], #[trigger] s[l])
}

/// Inserts the scored cell `e` after every entry that scores at least as
/// much (a stable insertion, since `e` is the highest cell so far).
fn insert_by_score(v: &mut Vec<(usize, i32)>, e: (usize, i32))
    requires
        pairs_sorted(old(v)@),
        forall|j: int| 0 <= j < old(v)@.len() ==> #[trigger] old(v)@[j].0 < e.0,
    ensures
        pairs_sorted(final(v)@),
        exists|pos: int| 0 <= pos <= old(v)@.len() && final(v)@ == old(v)@.insert(pos, e),
{
    let mut pos: usize = 0;
    while pos < v.len() && v[pos].1 >= e.1
        invariant
            pos <= v@.len(),
            v@ == old(v)@,
            forall|j: int| 0 <= j < pos ==> #[trigger] v@[j].1 >= e.1,
        decreases v@.len() - pos,
    {
        pos += 1;
    }
    let ghost s = v@;
    v.insert(pos, e);
    proof {
        let t = v@;
        assert(t == s.insert(pos as int, e));
        assert forall|j: int, l: int| 0 <= j < l < t.len() implies pair_before(#[trigger] t[j], #[trigger] t[l]) by {
            if l < pos {
                assert(t[j] == s[j] && t[l] == s[l]);
            } else if l == pos {
                assert(t[j] == s[j]);
            } else if j < pos {
                assert(t[j] == s[j] && t[l] == s[l - 1]);
            } else if j == pos {
                assert(t[l] == s[l - 1]);
                assert(pos < s.len());
                assert(s[pos as int].1 < e.1);
                if l - 1 > pos {
                    assert(pair_before(s[pos as int], s[l - 1]));
                }
            } else {
                assert(t[j] == s[j - 1] && t[l] == s[l - 1]);
            }
        }
    }
}

/// The trying order of a stone of `color` on (x, y), read off `board`.
fn cell_priority(board: &BitBoard, x: usize, y: usize, color: u8) -> (p: i32)
    requires
        on_board(x as int, y as int),
    ensures
        p == priority_of(board.cells(), x as int, y as int, color),
{
    let mut score: i32 = 0;
    let mut k: usize = 0;
    while k < 9
        invariant
            on_board(x as int, y as int),
            k <= 9,
            score == neighbour_sum(board.cells(), x as int, y as int, k as int, color),
            0 <= score <= 15 * k,
        decreases 9 - k,
    {
        let ox: isize = (k % 3) as isize - 1;
        let oy: isize = (k / 3) as isize - 1;
        if k != 4 {
            match index(x as isize + ox, y as isize + oy) {
                Some(idx) => {
                    if !board.is_empty(idx) {
                        score += 10;
                    }
                    if board.get(idx) == color {
                        score += 5;
                    }
                },
                None => {},
            }
        }
        k += 1;
    }
    let dx = if x >= 7 { x - 7 } else { 7 - x };
    let dy = if y >= 7 { y - 7 } else { 7 - y };
    score - (dx + dy) as i32
}

impl Solver {
    /// Whether a stone of `turn` on the empty cell `idx` of `board` is an
    /// attack, and its score.
    fn attack_at(
        board: &mut BitBoard,
        idx: usize,
        turn: u8,
        opponent_wins: &[usize],
        score_after_clear: bool,
    ) -> (r: (bool, i32))
        requires
            idx < 225,
            is_color(turn),
            old(board).cells()[idx as int] == EMPTY,
        ensures
            final(board).cells() == old(board).cells(),
            r.0 == attack_on(old(board).cells(), idx as int, turn, opponent_wins@),
            r.0 ==> r.1 == priority_of(old(board).cells(), (idx % 15) as int, (idx / 15) as int, turn),
    {
        let ghost b = board.cells();
        let (x, y) = xy(idx);
        board.set(idx, turn);
        let ghost b2 = board.cells();
        let wins_now = board.check_win(x, y, turn);
        let stops_opponent = opponent_wins.len() == 0 || (opponent_wins.len() == 1 && opponent_wins[0] == idx);
        let candidate = if wins_now {
            true
        } else if !stops_opponent {
            false
        } else if turn == BLACK {
            if board.makes_four_or_five(x, y, turn) {
                let cells = board.to_cells();
                proof {
                    assert(cells@ =~= b2.subrange(0, 225));
                }
                placed_forbidden(cells, idx, true).is_none()
            } else {
                false
            }
        } else {
            board.makes_four_or_five(x, y, turn)
        };
        let mut score: i32 = 0;
        if candidate && !score_after_clear {
            score = cell_priority(board, x, y, turn);
            proof {
                assert(idx as int == cell(x as int, y as int));
                lemma_neighbours_skip_cell(b, x as int, y as int, 9, turn, turn);
            }
        }
        board.clear(idx);
        proof {
            assert(board.cells() =~= b);
        }
        if candidate && score_after_clear {
            score = cell_priority(board, x, y, turn);
        }
        (candidate, score)
    }

    /// The attacks of `turn` in the searched rectangle, best first.
    #[verifier::spinoff_prover]
    fn attack_scan(&self, turn: u8, opponent_wins: &[usize], score_after_clear: bool) -> (attacks: Vec<usize>)
        requires
            self.wf(),
            is_color(turn),
        ensures
            attack_list(self@.cells, turn, opponent_wins@, self@.bounds, attacks@),
            attacks@.len() == attack_count(self@.cells, turn, opponent_wins@, self@.bounds),
    {
        let ghost b = self@.cells;
        let (min_x, max_x, min_y, max_y) = self.active_range();
        let ghost r = (min_x, max_x, min_y, max_y);
        proof {
            lemma_range_ok(self@.bounds);
        }
        let w = max_x - min_x + 1;
        let n = w * (max_y - min_y + 1);
        let mut board = self.board;
        let mut result: Vec<(usize, i32)> = Vec::new();
        let mut k: usize = 0;
        while k < n
            invariant
                r == range_of(self@.bounds),
                r == (min_x, max_x, min_y, max_y),
                min_x <= max_x <= 14,
                min_y <= max_y <= 14,
                w == max_x - min_x + 1,
                n == range_len(r),
                k <= n,
                board.cells() == b,
                is_color(turn),
                pairs_sorted(result@),
                result@.len() == attacks_upto_count(b, turn, opponent_wins@, r, k as int),
                forall|j: int| 0 <= j < result@.len() ==> {
                    let e = #[trigger] result@[j];
                    &&& in_rect(r, e.0 as int)
                    &&& rect_pos(r, e.0 as int) < k
                    &&& attack_on(b, e.0 as int, turn, opponent_wins@)
                    &&& e.1 == priority_of(b, (e.0 % 15) as int, (e.0 / 15) as int, turn)
                },
                forall|i: int| in_rect(r, i) && rect_pos(r, i) < k && attack_on(b, i, turn, opponent_wins@) ==> exists|j: int|
                    0 <= j < result@.len() && #[trigger] result@[j].0 == i,
            decreases n - k,
        {
            proof {
                lemma_range_cell(r, k as int);
                lemma_cell_pos(r, k as int);
            }
            let x = min_x + k % w;
            let y = min_y + k / w;
            let idx = y * BOARD_SIZE + x;
            let ghost old_result = result@;
            if board.is_empty(idx) {
                let (candidate, score) = Self::attack_at(&mut board, idx, turn, opponent_wins, score_after_clear);
                if candidate {
                    proof {
                        assert forall|j: int| 0 <= j < result@.len() implies #[trigger] result@[j].0 < idx by {
                            lemma_pos_order(r, result@[j].0 as int, idx as int);
                        }
                    }
                    insert_by_score(&mut result, (idx, score));
                    proof {
                        let pos = choose|pos: int| 0 <= pos <= old_result.len() && result@ == old_result.insert(pos, (idx, score));
                        assert forall|j: int| 0 <= j < result@.len() implies {
                            let e = #[trigger] result@[j];
                            &&& in_rect(r, e.0 as int)
                            &&& rect_pos(r, e.0 as int) < k + 1
                            &&& attack_on(b, e.0 as int, turn, opponent_wins@)
                            &&& e.1 == priority_of(b, (e.0 % 15) as int, (e.0 / 15) as int, turn)
                        } by {
                            if j < pos {
                                assert(result@[j] == old_result[j]);
                            } else if j > pos {
                                assert(result@[j] == old_result[j - 1]);
                            }
                        }
                        assert forall|i: int| in_rect(r, i) && rect_pos(r, i) < k + 1 && attack_on(b, i, turn, opponent_wins@) implies exists|j: int|
                            0 <= j < result@.len() && #[trigger] result@[j].0 == i by {
                            if rect_pos(r, i) == k {
                                lemma_rect_pos(r, i);
                                assert(result@[pos].0 == i);
                            } else {
                                let j0 = choose|j: int| 0 <= j < old_result.len() && #[trigger] old_result[j].0 == i;
                                if j0 < pos {
                                    assert(result@[j0].0 == i);
                                } else {
                                    assert(result@[j0 + 1].0 == i);
                                }
                            }
                        }
                    }
                } else {
                    proof {
                        assert forall|i: int| in_rect(r, i) && rect_pos(r, i) < k + 1 && attack_on(b, i, turn, opponent_wins@) implies exists|j: int|
                            0 <= j < result@.len() && #[trigger] result@[j].0 == i by {
                            if rect_pos(r, i) == k {
                                lemma_rect_pos(r, i);
                            }
                        }
                    }
                }
            } else {
                proof {
                    assert forall|i: int| in_rect(r, i) && rect_pos(r, i) < k + 1 && attack_on(b, i, turn, opponent_wins@) implies exists|j: int|
                        0 <= j < result@.len() && #[trigger] result@[j].0 == i by {
                        if rect_pos(r, i) == k {
                            lemma_rect_pos(r, i);
                        }
                    }
                }
            }
            k += 1;
        }
        let mut attacks: Vec<usize> = Vec::new();
        let mut j: usize = 0;
        while j < result.len()
            invariant
                j <= result@.len(),
                attacks@.len() == j,
                forall|l: int| 0 <= l < j ==> #[trigger] attacks@[l] == result@[l].0,
            decreases result@.len() - j,
        {
            attacks.push(result[j].0);
            j += 1;
        }
        proof {
            assert forall|j1: int, k1: int| 0 <= j1 < k1 < attacks@.len() implies tried_before(b, turn, #[trigger] attacks@[j1] as int, #[trigger] attacks@[k1] as int) by {
                assert(pair_before(result@[j1], result@[k1]));
            }
            assert forall|i: int| in_rect(r, i) && attack_on(b, i, turn, opponent_wins@) implies #[trigger] attacks@.contains(i as usize) by {
                lemma_rect_pos(r, i);
                let j0 = choose|j: int| 0 <= j < result@.len() && #[trigger] result@[j].0 == i;
                assert(attacks@[j0] == i as usize);
            }
        }
        attacks
    }

    /// The attacks of `turn`, best first (scored with the stone on the cell).
    fn vcf_attacks(&self, turn: u8, opponent_wins: &[usize]) -> (attacks: Vec<usize>)
        requires
            self.wf(),
            is_color(turn),
        ensures
            attack_list(self@.cells, turn, opponent_wins@, self@.bounds, attacks@),
            attacks@.len() == attack_count(self@.cells, turn, opponent_wins@, self@.bounds),
    {
        self.attack_scan(turn, opponent_wins, false)
    }

    /// The attacks of `turn` for the `Long` search, best first (scored with
    /// the cell emptied again, which gives the same scores).
    fn vcf_attacks_legacy(&self, turn: u8, opponent_wins: &[usize]) -> (attacks: Vec<usize>)
        requires
            self.wf(),
            is_color(turn),
        ensures
            attack_list(self@.cells, turn, opponent_wins@, self@.bounds, attacks@),
            attacks@.len() == attack_count(self@.cells, turn, opponent_wins@, self@.bounds),
    {
        self.attack_scan(turn, opponent_wins, true)
    }
}


/// Score of the defence `idx` of `defender`, lowest tried first: a winning
/// defence first, then one that leaves `attacker` no attack, then fewer
/// attacks left (ties broken by the defence's own priority, highest first).
pub open spec fn refutation_score(b: Seq<u8>, bounds: Option<(usize, usize, usize, usize)>, idx: int, defender: u8, attacker: u8) -> int {
    let b2 = b.update(idx, defender);
    let n = attack_count(b2, attacker, Seq::empty(), bounds);
    if five_c(b2, idx % 15, idx / 15, defender) {
        -1_000_000
    } else if n == 0 {
        -500_000
    } else {
        n * 10_000 - priority_of(b2, idx % 15, idx / 15, defender)
    }
}

/// `out[j]` is `defs[perm[j]]`, `perm` runs over the positions of `defs`
/// once each, by increasing score and, for equal scores, in the order of
/// `defs`.
pub open spec fn ordered_by(b: Seq<u8>, bounds: Option<(usize, usize, usize, usize)>, defender: u8, attacker: u8, defs: Seq<usize>, out: Seq<usize>, perm: Seq<int>) -> bool {
    &&& perm.len() == defs.len()
    &&& out.len() == defs.len()
    &&& forall|j: int| 0 <= j < perm.len() ==> 0 <= #[trigger] perm[j] < defs.len() && out[j] == defs[perm[j]]
    &&& forall|j: int, l: int| 0 <= j < l < perm.len() ==> {
        let sj = refutation_score(b, bounds, defs[#[trigger] perm[j]] as int, defender, attacker);
        let sl = refutation_score(b, bounds, defs[#[trigger] perm[l]] as int, defender, attacker);
        sj < sl || (sj == sl && perm[j] < perm[l])
    }
}

/// `out` is `defs` sorted by increasing score, equal scores kept in order.
pub open spec fn defense_order(b: Seq<u8>, bounds: Option<(usize, usize, usize, usize)>, defender: u8, attacker: u8, defs: Seq<usize>, out: Seq<usize>) -> bool {
    exists|perm: Seq<int>| #[trigger] ordered_by(b, bounds, defender, attacker, defs, out, perm)
}

/// The defences of `defs[..k]` where a black stone is not forbidden.
pub open spec fn allowed_upto(b: Seq<u8>, defs: Seq<usize>, k: int) -> Seq<usize>
    decreases k,
{
    if k <= 0 {
        Seq::empty()
    } else {
        let p = allowed_upto(b, defs, k - 1);
        let i = defs[k - 1] as int;
        if placed_verdict(b.update(i, BLACK).subrange(0, 225), i, true) is None {
            p.push(i as usize)
        } else {
            p
        }
    }
}

/// Whether `path` can be played from `b`: the moves alternate between the
/// colours, starting with `color`, each on an empty cell of the board.
pub open spec fn legal_line(b: Seq<u8>, path: Seq<Move>, color: u8) -> bool
    decreases path.len(),
{
    if path.len() == 0 {
        true
    } else {
        let m = path[0];
        let i = m.y * 15 + m.x;
        &&& m.x < 15
        &&& m.y < 15
        &&& m.color == color
        &&& b[i] == EMPTY
        &&& legal_line(b.update(i, color), path.drop_first(), other_spec(color))
    }
}

proof fn lemma_empties_put(b: Seq<u8>, i: int, c: u8, n: int)
    requires
        0 <= i < n <= b.len(),
        b[i] == EMPTY,
        c != EMPTY,
    ensures
        empties(b.update(i, c), n) == empties(b, n) - 1,
    decreases n,
{
    if n - 1 > i {
        lemma_empties_put(b, i, c, n - 1);
    } else {
        lemma_empties_same(b, b.update(i, c), n - 1);
    }
}

proof fn lemma_empties_same(a: Seq<u8>, b: Seq<u8>, n: int)
    requires
        0 <= n <= a.len(),
        n <= b.len(),
        forall|j: int| 0 <= j < n ==> a[j] == b[j],
    ensures
        empties(a, n) == empties(b, n),
    decreases n,
{
    if n > 0 {
        lemma_empties_same(a, b, n - 1);
    }
}

proof fn lemma_empties_bound(b: Seq<u8>, n: int)
    requires
        0 <= n,
    ensures
        0 <= empties(b, n) <= n,
    decreases n,
{
    if n > 0 {
        lemma_empties_bound(b, n - 1);
    }
}

proof fn lemma_legal_prepend(b: Seq<u8>, idx: int, color: u8, path: Seq<Move>, m: Move)
    requires
        0 <= idx < 225,
        b[idx] == EMPTY,
        m.x == idx % 15,
        m.y == idx / 15,
        m.color == color,
        legal_line(b.update(idx, color), path, other_spec(color)),
    ensures
        legal_line(b, seq![m] + path, color),
{
    let p2 = seq![m] + path;
    assert(p2.drop_first() =~= path);
    assert(p2[0] == m);
    assert(m.y * 15 + m.x == idx);
}

/// The digest of the opponent's winning cells kept in the table keys.
fn opponent_wins_signature(opponent_wins: &[usize]) -> u64 {
    let mut hasher = DefaultHasher::new();
    hash_usize(opponent_wins.len(), &mut hasher);
    let mut i: usize = 0;
    while i < opponent_wins.len()
        decreases opponent_wins@.len() - i,
    {
        hash_usize(opponent_wins[i], &mut hasher);
        i += 1;
    }
    hasher.finish()
}

/// How a step of the search ended, and of what kind a line it found is:
/// playable from `b` starting with `color`, and of odd length for a line
/// that ends with the attacker's move.
spec fn found_line(r: &Search, b: Seq<u8>, color: u8, odd: bool) -> bool {
    match r {
        Search::Found(p) => legal_line(b, p@, color) && p@.len() % 2 == (if odd { 1int } else { 0int }),
        _ => true,
    }
}

impl Solver {
    /// The table key of the position with `turn` to move.
    fn tt_key(&self, turn: u8, opponent_wins: &[usize]) -> (k: TtKey)
        ensures
            k.hash == self@.hash,
            k.turn == turn,
    {
        TtKey { hash: self.hash, turn, opponent_wins: opponent_wins_signature(opponent_wins) }
    }

    /// Moves the move that solved this key before, if listed, to the front.
    fn prioritize_pv(&self, attacks: &mut Vec<usize>, key: TtKey)
        ensures
            match self.pv.lookup(key.hash, key.turn, key.opponent_wins) {
                Some(m) => if old(attacks)@.contains(m) {
                    exists|i: int|
                        0 <= i < old(attacks)@.len() && old(attacks)@[i] == m
                            && (forall|j: int| 0 <= j < i ==> old(attacks)@[j] != m)
                            && final(attacks)@ == old(attacks)@.update(0, old(attacks)@[i]).update(i, old(attacks)@[0])
                } else {
                    final(attacks)@ == old(attacks)@
                },
                None => final(attacks)@ == old(attacks)@,
            },
    {
        match self.pv.get(key.hash, key.turn, key.opponent_wins) {
            None => {},
            Some(pv_move) => {
                let mut i: usize = 0;
                while i < attacks.len()
                    invariant
                        attacks@ == old(attacks)@,
                        i <= attacks@.len(),
                        forall|j: int| 0 <= j < i ==> old(attacks)@[j] != pv_move,
                        self.pv.lookup(key.hash, key.turn, key.opponent_wins) == Some(pv_move),
                    decreases attacks@.len() - i,
                {
                    if attacks[i] == pv_move {
                        let first = attacks[0];
                        let found = attacks[i];
                        attacks.set(0, found);
                        attacks.set(i, first);
                        proof {
                            assert(old(attacks)@[i as int] == pv_move);
                            assert(old(attacks)@.contains(pv_move));
                            assert(attacks@ == old(attacks)@.update(0, old(attacks)@[i as int]).update(i as int, old(attacks)@[0]));
                        }
                        return;
                    }
                    i += 1;
                }
                proof {
                    assert(!old(attacks)@.contains(pv_move));
                }
            },
        }
    }

    /// The score of the defence already placed on (x, y).
    fn placed_defense_score(&self, x: usize, y: usize, defender: u8, attacker: u8) -> (score: i32)
        requires
            self.wf(),
            on_board(x as int, y as int),
            is_color(attacker),
        ensures
            ({
                let b = self@.cells;
                let n = attack_count(b, attacker, Seq::empty(), self@.bounds);
                score == if five_c(b, x as int, y as int, defender) {
                    -1_000_000
                } else if n == 0 {
                    -500_000
                } else {
                    n * 10_000 - priority_of(b, x as int, y as int, defender)
                }
            }),
            -1_000_000 <= score <= 2_300_000,
    {
        if self.board.check_win(x, y, defender) {
            return -1_000_000;
        }
        let none: Vec<usize> = Vec::new();
        let attacks = self.vcf_attacks(attacker, none.as_slice());
        proof {
            assert(none@ =~= Seq::<usize>::empty());
            lemma_attacks_count_bound(self@.cells, attacker, none@, range_of(self@.bounds), range_len(range_of(self@.bounds)));
            lemma_range_ok(self@.bounds);
        }
        if attacks.len() == 0 {
            return -500_000;
        }
        let p = self.priority(x, y, defender);
        proof {
            lemma_neighbour_sum_bound(self@.cells, x as int, y as int, 9, defender);
        }
        (attacks.len() as i32) * 10_000 - p
    }

    /// The score of the defence `idx` (see `refutation_score`).
    fn defense_refutation_score(&mut self, idx: usize, defender: u8, attacker: u8) -> (score: i32)
        requires
            old(self).wf(),
            idx < 225,
            is_color(defender),
            is_color(attacker),
            old(self)@.cells[idx as int] == EMPTY,
        ensures
            final(self).wf(),
            final(self).search_mode() == old(self).search_mode(),
            final(self).tt == old(self).tt,
            final(self)@ == old(self)@,
            score == refutation_score(old(self)@.cells, old(self)@.bounds, idx as int, defender, attacker),
            -1_000_000 <= score <= 2_300_000,
    {
        let ghost b = self@.cells;
        let (x, y) = xy(idx);
        self.board.set(idx, defender);
        proof {
            assert(valid_board(self@.cells));
            assert(self.keys_ok());
            assert(box_ok(self@.bounds));
            assert(self@.saved == old(self)@.saved);
        }
        let score = self.placed_defense_score(x, y, defender, attacker);
        self.board.clear(idx);
        proof {
            assert(self@.cells =~= b);
        }
        score
    }

    /// Reorders `defenses` by increasing score, equal scores kept in order.
    fn order_defenses(&mut self, defenses: &mut Vec<usize>, defender: u8, attacker: u8)
        requires
            old(self).wf(),
            is_color(defender),
            is_color(attacker),
            forall|j: int| 0 <= j < old(defenses)@.len() ==> #[trigger] old(defenses)@[j] < 225 && old(self)@.cells[old(defenses)@[j] as int] == EMPTY,
        ensures
            final(self).wf(),
            final(self).search_mode() == old(self).search_mode(),
            final(self).tt == old(self).tt,
            final(self)@ == old(self)@,
            defense_order(old(self)@.cells, old(self)@.bounds, defender, attacker, old(defenses)@, final(defenses)@),
            forall|j: int| 0 <= j < final(defenses)@.len() ==> #[trigger] final(defenses)@[j] < 225 && old(self)@.cells[final(defenses)@[j] as int] == EMPTY,
    {
        let ghost b = self@.cells;
        let ghost bounds = self@.bounds;
        let ghost defs = defenses@;
        let n = defenses.len();
        let mut scored: Vec<(usize, i32)> = Vec::new();
        let mut p: usize = 0;
        while p < n
            invariant
                self.wf(),
                self.search_mode() == old(self).search_mode(),
                self.tt == old(self).tt,
                self@ == old(self)@,
                b == self@.cells,
                bounds == self@.bounds,
                defs == defenses@,
                n == defs.len(),
                is_color(defender),
                is_color(attacker),
                forall|j: int| 0 <= j < defs.len() ==> #[trigger] defs[j] < 225 && b[defs[j] as int] == EMPTY,
                p <= n,
                scored@.len() == p,
                pairs_sorted(scored@),
                forall|j: int| 0 <= j < scored@.len() ==> {
                    let e = #[trigger] scored@[j];
                    &&& e.0 < p
                    &&& e.1 == -refutation_score(b, bounds, defs[e.0 as int] as int, defender, attacker)
                },
            decreases n - p,
        {
            let s = self.defense_refutation_score(defenses[p], defender, attacker);
            insert_by_score(&mut scored, (p, -s));
            p += 1;
        }
        let mut out: Vec<usize> = Vec::new();
        let mut j: usize = 0;
        while j < scored.len()
            invariant
                defs == defenses@,
                n == defs.len(),
                scored@.len() == n,
                j <= n,
                out@.len() == j,
                forall|l: int| 0 <= l < scored@.len() ==> #[trigger] scored@[l].0 < n,
                forall|l: int| 0 <= l < j ==> #[trigger] out@[l] == defs[scored@[l].0 as int],
            decreases n - j,
        {
            out.push(defenses[scored[j].0]);
            j += 1;
        }
        proof {
            let perm = Seq::new(n as nat, |l: int| scored@[l].0 as int);
            assert forall|j1: int, l1: int| 0 <= j1 < l1 < perm.len() implies {
                let sj = refutation_score(b, bounds, defs[#[trigger] perm[j1]] as int, defender, attacker);
                let sl = refutation_score(b, bounds, defs[#[trigger] perm[l1]] as int, defender, attacker);
                sj < sl || (sj == sl && perm[j1] < perm[l1])
            } by {
                assert(pair_before(scored@[j1], scored@[l1]));
            }
            assert(ordered_by(b, bounds, defender, attacker, defs, out@, perm));
        }
        *defenses = out;
    }

    /// Whether a black stone on `idx` would not be forbidden.
    fn black_allowed(&self, idx: usize) -> (r: bool)
        requires
            idx < 225,
        ensures
            r == (placed_verdict(self@.cells.update(idx as int, BLACK).subrange(0, 225), idx as int, true) is None),
    {
        let mut board = self.board;
        board.set(idx, BLACK);
        let cells = board.to_cells();
        proof {
            assert(cells@ =~= self@.cells.update(idx as int, BLACK).subrange(0, 225));
        }
        placed_forbidden(cells, idx, true).is_none()
    }

    /// The defences where a black stone would not be forbidden, in order.
    fn allowed_defenses(&self, defs: &Vec<usize>) -> (out: Vec<usize>)
        requires
            forall|j: int| 0 <= j < defs@.len() ==> #[trigger] defs@[j] < 225,
        ensures
            out@ == allowed_upto(self@.cells, defs@, defs@.len() as int),
            forall|j: int| 0 <= j < out@.len() ==> #[trigger] defs@.contains(out@[j]),
    {
        let ghost b = self@.cells;
        let mut out: Vec<usize> = Vec::new();
        let mut k: usize = 0;
        while k < defs.len()
            invariant
                b == self@.cells,
                k <= defs@.len(),
                forall|j: int| 0 <= j < defs@.len() ==> #[trigger] defs@[j] < 225,
                out@ == allowed_upto(b, defs@, k as int),
                forall|j: int| 0 <= j < out@.len() ==> #[trigger] defs@.contains(out@[j]),
            decreases defs@.len() - k,
        {
            let idx = defs[k];
            if self.black_allowed(idx) {
                out.push(idx);
                proof {
                    assert(defs@[k as int] == idx);
                }
            }
            k += 1;
        }
        out
    }
}

proof fn lemma_attacks_count_bound(b: Seq<u8>, turn: u8, ow: Seq<usize>, r: (usize, usize, usize, usize), k: int)
    requires
        k >= 0,
    ensures
        0 <= attacks_upto_count(b, turn, ow, r, k) <= k,
    decreases k,
{
    if k > 0 {
        lemma_attacks_count_bound(b, turn, ow, r, k - 1);
    }
}

proof fn lemma_neighbour_sum_bound(b: Seq<u8>, x: int, y: int, n: int, color: u8)
    requires
        0 <= n,
    ensures
        0 <= neighbour_sum(b, x, y, n, color) <= 15 * n,
    decreases n,
{
    if n > 0 {
        lemma_neighbour_sum_bound(b, x, y, n - 1, color);
    }
}


impl Solver {
    /// Searches for a VCF of `turn` with `depth` moves played, trying the
    /// attacks best first; a line found starts with `turn`'s attack, can be
    /// played from the current position and ends with `turn`'s move.
    #[verifier::spinoff_prover]
    #[verifier::rlimit(100)]
    fn solve_at<F: Fn() -> Signal>(&mut self, stop: &F, turn: u8, depth: usize, max_depth: usize) -> (r: Search)
        requires
            old(self).wf(),
            askable(*stop),
            is_color(turn),
            depth + 2 * empties(old(self)@.cells, 225) <= 450,
        ensures
            final(self).wf(),
            never_stops(*stop) ==> !(r is Timeout) && !(r is Cancelled),
            old(self).search_mode() == SearchMode::Shortest && depth + 1 == max_depth && never_stops(*stop) && hash_free(old(self).tt, old(self)@.hash) && leaf_win(
                old(self)@,
                turn,
            ) ==> r is Found,
            old(self).search_mode() == SearchMode::Shortest && depth + 3 == max_depth && never_stops(*stop) && old(self).tt.is_empty() && pair_keys_distinct(turn)
                && four_three(old(self)@, turn) ==> r is Found,
            old(self).search_mode() == SearchMode::Shortest && depth + 2 > max_depth ==> forall|h: u64, t: u8, g: u64|
                h != old(self)@.hash ==> #[trigger] final(self).tt.lookup(h, t, g) == old(self).tt.lookup(h, t, g),
            old(self).search_mode() == SearchMode::Shortest && depth + 2 > max_depth && r is Found ==> final(self).tt == old(self).tt,
            always_answers(*stop, Signal::TimeUp) ==> r is Timeout,
            always_answers(*stop, Signal::Cancel) ==> r is Cancelled,
            final(self).search_mode() == old(self).search_mode(),
            final(self)@ == old(self)@,
            found_line(&r, old(self)@.cells, turn, true),
            r matches Search::Found(p) ==> winning_line(old(self)@.cells, p@, turn),
            r matches Search::Found(p) ==> attack_wins(old(self)@.cells, cell_of(p@[0]), turn, (empties(old(self)@.cells, 225) / 2) as nat),
            old(self).search_mode() == SearchMode::Shortest ==> (r matches Search::Found(p) ==> depth + p@.len() <= max_depth),
            old(self).search_mode() == SearchMode::Long ==> (old(self).legacy_tt@ == Map::<u64, usize>::empty() && r is NotFound
                ==> no_five_move(old(self)@.cells, old(self)@.bounds, turn)),
            old(self).search_mode() != SearchMode::Long ==> (old(self).tt.is_empty() && (old(self).search_mode() == SearchMode::Shortest ==> depth + 1
                <= max_depth) && r is NotFound ==> no_five_move(old(self)@.cells, old(self)@.bounds, turn)),
        decreases empties(self@.cells, 225), 2int,
    {
        let signal = stop();
        match signal {
            Signal::TimeUp => {
                return Search::Timeout;
            },
            Signal::Cancel => {
                return Search::Cancelled;
            },
            Signal::Go => {},
        }
        proof {
            assert(stop.ensures((), signal));
        }
        proof {
            lemma_empties_bound(old(self)@.cells, 225);
        }
        if self.mode == SearchMode::Long {
            return self.solve_at_legacy(stop, turn, depth, max_depth);
        }
        if self.mode == SearchMode::Shortest && depth + 1 > max_depth {
            return Search::NotFound;
        }
        let rest = if max_depth >= depth { max_depth - depth } else { 0 };
        let opponent_wins = self.winning_moves(other(turn));
        let key = self.tt_key(turn, opponent_wins.as_slice());
        proof {
            broadcast use vstd::std_specs::hash::group_hash_axioms;
        }
        let cached_entry = self.tt.get(key.hash, key.turn, key.opponent_wins);
        proof {
            if old(self).tt.is_empty() {
                assert(old(self).tt.lookup(key.hash, key.turn, key.opponent_wins) is None);
            }
            if hash_free(old(self).tt, old(self)@.hash) {
                assert(old(self).tt.lookup(key.hash, key.turn, key.opponent_wins) is None);
            }
        }
        match cached_entry {
            Some(cached) => {
                if cached >= rest {
                    return Search::NotFound;
                }
            },
            None => {},
        }
        let mut attacks = self.vcf_attacks(turn, opponent_wins.as_slice());
        proof {
            lemma_attacks_listed_empty(self@.cells, turn, opponent_wins@, self@.bounds, attacks@);
        }
        let ghost listed = attacks@;
        self.prioritize_pv(&mut attacks, key);
        proof {
            assert forall|j: int| 0 <= j < attacks@.len() implies #[trigger] attacks@[j] < 225 && self@.cells[attacks@[j] as int] == EMPTY
                && threat_on(self@.cells.update(attacks@[j] as int, turn), attacks@[j] as int, turn) by {
                if attacks@ != listed {
                    let p = choose|p: int| 0 <= p < listed.len() && attacks@ == listed.update(0, listed[p]).update(p, listed[0]);
                    if j == p {
                        assert(attacks@[j] == listed[0]);
                    } else if j == 0 {
                        assert(attacks@[j] == listed[p]);
                    } else {
                        assert(attacks@[j] == listed[j]);
                    }
                }
            }
            assert forall|x: usize| listed.contains(x) implies attacks@.contains(x) by {
                let k = choose|k: int| 0 <= k < listed.len() && listed[k] == x;
                if attacks@ != listed {
                    let p = choose|p: int| 0 <= p < listed.len() && attacks@ == listed.update(0, listed[p]).update(p, listed[0]);
                    if k == 0 {
                        assert(attacks@[p] == x);
                    } else if k == p {
                        assert(attacks@[0] == x);
                    } else {
                        assert(attacks@[k] == x);
                    }
                } else {
                    assert(attacks@[k] == x);
                }
            }
        }
        proof {
            if old(self).search_mode() == SearchMode::Shortest && depth + 3 == max_depth && four_three(old(self)@, turn) {
                let a = choose|a: int| #[trigger] four_three_at(old(self)@, a, turn);
                assert(in_rect(range_of(old(self)@.bounds), a));
                assert(listed.contains(a as usize));
                assert(attacks@.contains(a as usize));
            }
            if leaf_win(old(self)@, turn) {
                let c = choose|c: int|
                    #[trigger] in_rect(range_of(old(self)@.bounds), c) && attack_on(
                        old(self)@.cells,
                        c,
                        turn,
                        winning_cells(old(self)@.cells, other_spec(turn), old(self)@.bounds),
                    ) && wins_at_once(old(self)@.cells, c, turn);
                assert(listed.contains(c as usize));
                assert(attacks@.contains(c as usize));
            }
        }
        if attacks.len() == 0 {
            proof {
                lemma_no_five_listed(old(self)@.cells, turn, opponent_wins@, old(self)@.bounds, listed, attacks@);
            }
            self.tt.insert(key.hash, key.turn, key.opponent_wins, rest);
            return Search::NotFound;
        }
        let mut i: usize = 0;
        while i < attacks.len()
            invariant
                old(self).search_mode() == SearchMode::Shortest && depth + 2 > max_depth ==> self.tt == old(self).tt,
                old(self).search_mode() == SearchMode::Shortest && depth + 1 == max_depth && never_stops(*stop) ==> forall|j: int|
                    0 <= j < i ==> !wins_at_once(old(self)@.cells, #[trigger] attacks@[j] as int, turn),
                old(self).search_mode() == SearchMode::Shortest && depth + 3 == max_depth && never_stops(*stop) && pair_keys_distinct(turn) && old(self).tt.is_empty() ==> forall|j: int|
                    0 <= j < i ==> !four_three_at(old(self)@, #[trigger] attacks@[j] as int, turn),
                old(self).search_mode() == SearchMode::Shortest && depth + 3 == max_depth && old(self).tt.is_empty() ==> forall|h: u64, t: u8, g: u64|
                    #[trigger] self.tt.lookup(h, t, g) is Some ==> exists|j: int, d: int|
                        0 <= j < i && 0 <= d < 225 && h == old(self)@.hash ^ search_key(attacks@[j] as int, turn as int) ^ search_key(
                            d,
                            other_spec(turn) as int,
                        ),
                opponent_wins@ == winning_cells(old(self)@.cells, other_spec(turn), old(self)@.bounds),
                askable(*stop),
                !always_answers(*stop, Signal::TimeUp),
                !always_answers(*stop, Signal::Cancel),
                self.wf(),
                self.search_mode() == old(self).search_mode(),
                self@ == old(self)@,
                is_color(turn),
                depth + 2 * empties(old(self)@.cells, 225) <= 450,
                i <= attacks@.len(),
                forall|j: int| 0 <= j < attacks@.len() ==> #[trigger] attacks@[j] < 225 && old(self)@.cells[attacks@[j] as int] == EMPTY
                    && threat_on(old(self)@.cells.update(attacks@[j] as int, turn), attacks@[j] as int, turn),
                old(self).search_mode() == SearchMode::Shortest ==> depth + 1 <= max_depth,
                attack_list(old(self)@.cells, turn, opponent_wins@, old(self)@.bounds, listed),
                forall|x: usize| listed.contains(x) ==> attacks@.contains(x),
                forall|j: int| 0 <= j < i ==> !five_c(old(self)@.cells.update(#[trigger] attacks@[j] as int, turn), attacks@[j] as int
                    % 15, attacks@[j] as int / 15, turn),
            decreases attacks@.len() - i,
        {
            let attack = attacks[i];
            let ghost t0 = self.tt;
            proof {
                if old(self).search_mode() == SearchMode::Shortest && depth + 3 == max_depth && never_stops(*stop) && pair_keys_distinct(turn) && old(self).tt.is_empty()
                    && four_three_at(old(self)@, attack as int, turn) {
                    assert forall|j: int| 0 <= j < i implies #[trigger] attacks@[j] < 225 && attacks@[j] as int != attack as int by {
                        assert(!four_three_at(old(self)@, attacks@[j] as int, turn));
                    }
                    lemma_pairs_free(self.tt, old(self)@.hash, attacks@, i as int, attack as int, turn);
                }
            }
            let vr = self.verify_move(stop, attack, turn, depth, max_depth);
            proof {
                if old(self).search_mode() == SearchMode::Shortest && depth + 3 == max_depth && old(self).tt.is_empty() {
                    lemma_pairs_grow(t0, self.tt, old(self)@.hash, attacks@, i as int, turn);
                }
            }
            match vr {
                Search::Found(path) => {
                    self.pv.insert(key.hash, key.turn, key.opponent_wins, attack);
                    let m = Move { x: attack % BOARD_SIZE, y: attack / BOARD_SIZE, color: turn };
                    let mut line = path;
                    line.insert(0, m);
                    proof {
                        assert(line@ =~= seq![m] + path@);
                        lemma_legal_prepend(old(self)@.cells, attack as int, turn, path@, m);
                        lemma_winning_prepend(old(self)@.cells, attack as int, turn, path@, m);
                        assert(line@[0] == m);
                        assert(cell_of(m) == attack as int);
                    }
                    return Search::Found(line);
                },
                Search::Timeout => {
                    return Search::Timeout;
                },
                Search::Cancelled => {
                    return Search::Cancelled;
                },
                Search::NotFound => {},
            }
            i += 1;
        }
        proof {
            lemma_no_five_listed(old(self)@.cells, turn, opponent_wins@, old(self)@.bounds, listed, attacks@);
            if old(self).search_mode() == SearchMode::Shortest && depth + 3 == max_depth && never_stops(*stop) && pair_keys_distinct(turn) && old(self).tt.is_empty()
                && four_three(old(self)@, turn) {
                let a = choose|a: int| #[trigger] four_three_at(old(self)@, a, turn);
                assert(in_rect(range_of(old(self)@.bounds), a));
                assert(listed.contains(a as usize));
                assert(attacks@.contains(a as usize));
                let q = choose|q: int| 0 <= q < attacks@.len() && attacks@[q] == a as usize;
                assert(!four_three_at(old(self)@, attacks@[q] as int, turn));
            }
            if old(self).search_mode() == SearchMode::Shortest && depth + 1 == max_depth && never_stops(*stop) && leaf_win(old(self)@, turn) {
                let c = choose|c: int|
                    #[trigger] in_rect(range_of(old(self)@.bounds), c) && attack_on(
                        old(self)@.cells,
                        c,
                        turn,
                        winning_cells(old(self)@.cells, other_spec(turn), old(self)@.bounds),
                    ) && wins_at_once(old(self)@.cells, c, turn);
                assert(listed.contains(c as usize));
                assert(attacks@.contains(c as usize));
                let q = choose|q: int| 0 <= q < attacks@.len() && attacks@[q] == c as usize;
                assert(!wins_at_once(old(self)@.cells, attacks@[q] as int, turn));
            }
        }
        self.tt.insert(key.hash, key.turn, key.opponent_wins, rest);
        Search::NotFound
    }

    /// The `Long` search: as `solve_at`, with the table keyed by the
    /// position alone and no depth cut.
    #[verifier::spinoff_prover]
    #[verifier::rlimit(60)]
    fn solve_at_legacy<F: Fn() -> Signal>(&mut self, stop: &F, turn: u8, depth: usize, max_depth: usize) -> (r: Search)
        requires
            old(self).wf(),
            askable(*stop),
            is_color(turn),
            old(self).search_mode() != SearchMode::Shortest,
            depth + 2 * empties(old(self)@.cells, 225) <= 450,
        ensures
            final(self).wf(),
            never_stops(*stop) ==> !(r is Timeout) && !(r is Cancelled),
            final(self).search_mode() == old(self).search_mode(),
            final(self)@ == old(self)@,
            found_line(&r, old(self)@.cells, turn, true),
            r matches Search::Found(p) ==> winning_line(old(self)@.cells, p@, turn),
            r matches Search::Found(p) ==> attack_wins(old(self)@.cells, cell_of(p@[0]), turn, (empties(old(self)@.cells, 225) / 2) as nat),
            old(self).legacy_tt@ == Map::<u64, usize>::empty() && r is NotFound ==> no_five_move(old(self)@.cells, old(self)@.bounds, turn),
        decreases empties(self@.cells, 225), 1int,
    {
        let signal = stop();
        match signal {
            Signal::TimeUp => {
                return Search::Timeout;
            },
            Signal::Cancel => {
                return Search::Cancelled;
            },
            Signal::Go => {},
        }
        let rest = if max_depth >= depth { max_depth - depth } else { 0 };
        proof {
            broadcast use vstd::std_specs::hash::group_hash_axioms;
        }
        match self.legacy_tt.get(&self.hash) {
            Some(cached) => {
                if *cached >= rest {
                    return Search::NotFound;
                }
            },
            None => {},
        }
        let opponent_wins = self.winning_moves(other(turn));
        let attacks = self.vcf_attacks_legacy(turn, opponent_wins.as_slice());
        proof {
            lemma_attacks_listed_empty(self@.cells, turn, opponent_wins@, self@.bounds, attacks@);
        }
        let ghost tt_empty = old(self).legacy_tt@ == Map::<u64, usize>::empty();
        if attacks.len() == 0 {
            proof {
                lemma_no_five_listed(old(self)@.cells, turn, opponent_wins@, old(self)@.bounds, attacks@, attacks@);
            }
            self.legacy_tt.insert(self.hash, rest);
            return Search::NotFound;
        }
        let mut i: usize = 0;
        while i < attacks.len()
            invariant
                askable(*stop),
                self.wf(),
                self.search_mode() == old(self).search_mode(),
                self@ == old(self)@,
                is_color(turn),
                depth + 2 * empties(old(self)@.cells, 225) <= 450,
                i <= attacks@.len(),
                forall|j: int| 0 <= j < attacks@.len() ==> #[trigger] attacks@[j] < 225 && old(self)@.cells[attacks@[j] as int] == EMPTY
                    && threat_on(old(self)@.cells.update(attacks@[j] as int, turn), attacks@[j] as int, turn),
                old(self).search_mode() != SearchMode::Shortest,
                attack_list(old(self)@.cells, turn, opponent_wins@, old(self)@.bounds, attacks@),
                forall|j: int| 0 <= j < i ==> !five_c(old(self)@.cells.update(#[trigger] attacks@[j] as int, turn), attacks@[j] as int
                    % 15, attacks@[j] as int / 15, turn),
            decreases attacks@.len() - i,
        {
            let attack = attacks[i];
            match self.verify_move_legacy(stop, attack, turn, depth, max_depth) {
                Search::Found(path) => {
                    let m = Move { x: attack % BOARD_SIZE, y: attack / BOARD_SIZE, color: turn };
                    let mut line = path;
                    line.insert(0, m);
                    proof {
                        assert(line@ =~= seq![m] + path@);
                        lemma_legal_prepend(old(self)@.cells, attack as int, turn, path@, m);
                        lemma_winning_prepend(old(self)@.cells, attack as int, turn, path@, m);
                        assert(line@[0] == m);
                        assert(cell_of(m) == attack as int);
                    }
                    return Search::Found(line);
                },
                Search::Timeout => {
                    return Search::Timeout;
                },
                Search::Cancelled => {
                    return Search::Cancelled;
                },
                Search::NotFound => {},
            }
            i += 1;
        }
        proof {
            lemma_no_five_listed(old(self)@.cells, turn, opponent_wins@, old(self)@.bounds, attacks@, attacks@);
        }
        self.legacy_tt.insert(self.hash, rest);
        Search::NotFound
    }
}

/// Every listed attack is an empty cell of the board.
proof fn lemma_attacks_listed_empty(b: Seq<u8>, turn: u8, ow: Seq<usize>, bounds: Option<(usize, usize, usize, usize)>, out: Seq<usize>)
    requires
        attack_list(b, turn, ow, bounds, out),
    ensures
        forall|j: int| 0 <= j < out.len() ==> #[trigger] out[j] < 225 && b[out[j] as int] == EMPTY
            && threat_on(b.update(out[j] as int, turn), out[j] as int, turn),
{
    assert forall|j: int| 0 <= j < out.len() implies #[trigger] out[j] < 225 && b[out[j] as int] == EMPTY
        && threat_on(b.update(out[j] as int, turn), out[j] as int, turn) by {
        assert(in_rect(range_of(bounds), out[j] as int));
        assert(attack_on(b, out[j] as int, turn, ow));
    }
}

/// The defences left against an attack of `turn` through `last`: the cells
/// that stop its four, without those forbidden when the defender is Black.
pub open spec fn defenses_left(b: Seq<u8>, turn: u8, last: int) -> Seq<usize> {
    let d = defense_cells(b, turn, last);
    if other_spec(turn) == BLACK {
        allowed_upto(b, d, d.len() as int)
    } else {
        d
    }
}

/// Whether the stone of `color` on cell `i` of board `b` makes five.
pub open spec fn five_on(b: Seq<u8>, i: int, color: u8) -> bool {
    five_c(b, i % 15, i / 15, color)
}

/// Whether the stone of `color` on cell `i` of board `b` makes five or a
/// four.
pub open spec fn threat_on(b: Seq<u8>, i: int, color: u8) -> bool {
    five_on(b, i, color) || makes_four_c(b, i % 15, i / 15, color)
}

/// Whether the stone of `color` on cell `i` of board `b` makes five or an
/// open four.
pub open spec fn breaks_through(b: Seq<u8>, i: int, color: u8) -> bool {
    five_c(b, i % 15, i / 15, color) || straight_four_c(b, i % 15, i / 15, color)
}

/// The cell of a move.
pub open spec fn cell_of(m: Move) -> int {
    m.y * 15 + m.x
}

/// A move of `turn` on cell `a` wins at once: it makes five or an open
/// four, or it leaves the defender no defence.
pub open spec fn wins_at_once(b: Seq<u8>, a: int, turn: u8) -> bool {
    breaks_through(b.update(a, turn), a, turn) || defenses_left(b.update(a, turn), turn, a).len() == 0
}

/// `turn` has, in the searched rectangle, an attack that wins at once.
pub open spec fn leaf_win(s: SearchState, turn: u8) -> bool {
    exists|c: int|
        #[trigger] in_rect(range_of(s.bounds), c) && attack_on(s.cells, c, turn, winning_cells(s.cells, other_spec(turn), s.bounds))
            && wins_at_once(s.cells, c, turn)
}

/// Attack `a` of `turn` wins in three moves: it is an attack of the
/// searched rectangle, and after each defence left (none of which makes
/// five for the defender) `turn` has an attack that wins at once.
pub open spec fn four_three_at(s: SearchState, a: int, turn: u8) -> bool {
    let b1 = s.cells.update(a, turn);
    let ds = defenses_left(b1, turn, a);
    &&& in_rect(range_of(s.bounds), a)
    &&& attack_on(s.cells, a, turn, winning_cells(s.cells, other_spec(turn), s.bounds))
    &&& forall|k: int|
        0 <= k < ds.len() ==> !five_on(b1.update(#[trigger] ds[k] as int, other_spec(turn)), ds[k] as int, other_spec(turn))
            && leaf_win(after_put(after_put(s, a, turn), ds[k] as int, other_spec(turn)), turn)
}

/// `turn` has a VCF of at most three moves from `s`.
pub open spec fn four_three(s: SearchState, turn: u8) -> bool {
    exists|a: int| #[trigger] four_three_at(s, a, turn)
}

/// No entry of the table is filed under hash `h`.
pub open spec fn hash_free(tt: KeyTable, h: u64) -> bool {
    forall|t: u8, g: u64| #[trigger] tt.lookup(h, t, g) is None
}

/// The search keys tell apart every attack of `turn` followed by a
/// defence: two such pairs of cells whose keys XOR alike are the same pair.
pub open spec fn pair_keys_distinct(turn: u8) -> bool {
    forall|a: int, d: int, a2: int, d2: int|
        0 <= a < 225 && 0 <= d < 225 && 0 <= a2 < 225 && 0 <= d2 < 225 && #[trigger] (search_key(a, turn as int) ^ search_key(
            d,
            other_spec(turn) as int,
        )) == #[trigger] (search_key(a2, turn as int) ^ search_key(d2, other_spec(turn) as int)) ==> a == a2 && d == d2
}

/// Table entries filed under hashes of earlier attacks (each followed by
/// some defence) leave every hash of a later, different attack free, when
/// the keys tell the pairs apart.
proof fn lemma_pairs_free(tt: KeyTable, h0: u64, attacks: Seq<usize>, i: int, a: int, turn: u8)
    requires
        pair_keys_distinct(turn),
        0 <= a < 225,
        0 <= i <= attacks.len(),
        forall|j: int| 0 <= j < i ==> #[trigger] attacks[j] < 225 && attacks[j] as int != a,
        forall|h: u64, t: u8, g: u64|
            #[trigger] tt.lookup(h, t, g) is Some ==> exists|j: int, d: int|
                0 <= j < i && 0 <= d < 225 && h == h0 ^ search_key(attacks[j] as int, turn as int) ^ search_key(d, other_spec(turn) as int),
    ensures
        forall|d: int| 0 <= d < 225 ==> #[trigger] hash_free(tt, h0 ^ search_key(a, turn as int) ^ search_key(d, other_spec(turn) as int)),
{
    assert forall|d: int| 0 <= d < 225 implies #[trigger] hash_free(tt, h0 ^ search_key(a, turn as int) ^ search_key(d, other_spec(turn) as int)) by {
        let h = h0 ^ search_key(a, turn as int) ^ search_key(d, other_spec(turn) as int);
        assert forall|t: u8, g: u64| #[trigger] tt.lookup(h, t, g) is None by {
            if tt.lookup(h, t, g) is Some {
                let (j, d2) = choose|j: int, d2: int|
                    0 <= j < i && 0 <= d2 < 225 && h == h0 ^ search_key(attacks[j] as int, turn as int) ^ search_key(
                        d2,
                        other_spec(turn) as int,
                    );
                lemma_xor_cancel(
                    h0,
                    search_key(a, turn as int),
                    search_key(d, other_spec(turn) as int),
                    search_key(attacks[j] as int, turn as int),
                    search_key(d2, other_spec(turn) as int),
                );
                assert(attacks[j] < 225);
            }
        }
    }
}

/// One more attack tried: entries it changed are filed under its pairs.
proof fn lemma_pairs_grow(t0: KeyTable, t1: KeyTable, h0: u64, attacks: Seq<usize>, i: int, turn: u8)
    requires
        0 <= i < attacks.len(),
        forall|h: u64, t: u8, g: u64|
            #[trigger] t0.lookup(h, t, g) is Some ==> exists|j: int, d: int|
                0 <= j < i && 0 <= d < 225 && h == h0 ^ search_key(attacks[j] as int, turn as int) ^ search_key(d, other_spec(turn) as int),
        forall|h: u64, t: u8, g: u64|
            #[trigger] t1.lookup(h, t, g) != t0.lookup(h, t, g) ==> exists|d: int|
                0 <= d < 225 && h == h0 ^ search_key(attacks[i] as int, turn as int) ^ search_key(d, other_spec(turn) as int),
    ensures
        forall|h: u64, t: u8, g: u64|
            #[trigger] t1.lookup(h, t, g) is Some ==> exists|j: int, d: int|
                0 <= j < i + 1 && 0 <= d < 225 && h == h0 ^ search_key(attacks[j] as int, turn as int) ^ search_key(d, other_spec(turn) as int),
{
    assert forall|h: u64, t: u8, g: u64| #[trigger] t1.lookup(h, t, g) is Some implies exists|j: int, d: int|
        0 <= j < i + 1 && 0 <= d < 225 && h == h0 ^ search_key(attacks[j] as int, turn as int) ^ search_key(d, other_spec(turn) as int) by {
        if t1.lookup(h, t, g) != t0.lookup(h, t, g) {
            let d = choose|d: int| 0 <= d < 225 && h == h0 ^ search_key(attacks[i] as int, turn as int) ^ search_key(d, other_spec(turn) as int);
            assert(0 <= i < i + 1);
        } else {
            assert(t0.lookup(h, t, g) is Some);
            let (j, d) = choose|j: int, d: int|
                0 <= j < i && 0 <= d < 225 && h == h0 ^ search_key(attacks[j] as int, turn as int) ^ search_key(d, other_spec(turn) as int);
            assert(0 <= j < i + 1);
        }
    }
}

/// XOR with the same value on both sides cancels.
proof fn lemma_xor_cancel(h: u64, x: u64, y: u64, u: u64, v: u64)
    requires
        h ^ x ^ y == h ^ u ^ v,
    ensures
        x ^ y == u ^ v,
{
    assert(x ^ y == u ^ v) by (bit_vector)
        requires
            h ^ x ^ y == h ^ u ^ v,
    ;
}

/// Whether `p` is a line of continuous fours of `turn` from board `b`: an
/// attack, then either nothing more, the attack making five or an open
/// four or leaving the defender no defence, or one of the defences left,
/// which makes no five for the defender, and again such a line.
#[verifier::opaque]
pub open spec fn winning_line(b: Seq<u8>, p: Seq<Move>, turn: u8) -> bool
    decreases p.len(),
{
    if p.len() == 0 {
        false
    } else {
        let a = cell_of(p[0]);
        let b1 = b.update(a, turn);
        if !threat_on(b1, a, turn) {
            false
        } else if p.len() == 1 {
            breaks_through(b1, a, turn) || defenses_left(b1, turn, a).len() == 0
        } else {
            let d = cell_of(p[1]);
            let b2 = b1.update(d, other_spec(turn));
            &&& defenses_left(b1, turn, a).contains(d as usize)
            &&& !five_on(b2, d, other_spec(turn))
            &&& winning_line(b2, p.subrange(2, p.len() as int), turn)
        }
    }
}

/// Whether `q` answers an attack of `turn` on board `b` with one of the
/// defences `defs`, which makes no five for the defender, followed by a
/// line of continuous fours of `turn`.
#[verifier::opaque]
pub open spec fn defended_line(b: Seq<u8>, q: Seq<Move>, turn: u8, defs: Seq<usize>) -> bool {
    &&& q.len() > 0
    &&& defs.contains(cell_of(q[0]) as usize)
    &&& !five_on(b.update(cell_of(q[0]), other_spec(turn)), cell_of(q[0]), other_spec(turn))
    &&& winning_line(b.update(cell_of(q[0]), other_spec(turn)), q.subrange(1, q.len() as int), turn)
}

/// Whether the attack of `turn` on cell `a` of board `b` wins by
/// continuous fours with at most `fuel` more attacks: it breaks through,
/// or leaves the defender no defence, or no defence left makes five for
/// the defender and after each one `turn` has such a winning attack with
/// one attack less.
pub open spec fn attack_wins(b: Seq<u8>, a: int, turn: u8, fuel: nat) -> bool
    decreases fuel, 0int, 0int,
{
    let b1 = b.update(a, turn);
    let ds = defenses_left(b1, turn, a);
    &&& threat_on(b1, a, turn)
    &&& {
        ||| breaks_through(b1, a, turn)
        ||| ds.len() == 0
        ||| fuel > 0 && forall|k: int| #![trigger ds[k]] 0 <= k < ds.len() ==> {
            &&& !five_on(b1.update(ds[k] as int, other_spec(turn)), ds[k] as int, other_spec(turn))
            &&& some_attack_wins(b1.update(ds[k] as int, other_spec(turn)), turn, (fuel - 1) as nat, 0)
        }
    }
}

/// Whether `turn` has a winning attack (within `fuel`) on an empty cell of
/// board `b` from cell `i` on.
pub open spec fn some_attack_wins(b: Seq<u8>, turn: u8, fuel: nat, i: int) -> bool
    decreases fuel, 1int, 225 - i,
{
    &&& 0 <= i < 225
    &&& ((b[i] == EMPTY && attack_wins(b, i, turn, fuel)) || some_attack_wins(b, turn, fuel, i + 1))
}

/// A winning attack on an empty cell is one from any earlier cell on.
proof fn lemma_some_from(b: Seq<u8>, turn: u8, fuel: nat, i: int, a: int)
    requires
        0 <= i <= a < 225,
        b[a] == EMPTY,
        attack_wins(b, a, turn, fuel),
    ensures
        some_attack_wins(b, turn, fuel, i),
    decreases a - i,
{
    if i < a {
        lemma_some_from(b, turn, fuel, i + 1, a);
    }
}

/// An attack that breaks through or leaves no defence wins.
proof fn lemma_attack_breaks(b: Seq<u8>, a: int, turn: u8, fuel: nat)
    requires
        threat_on(b.update(a, turn), a, turn),
        breaks_through(b.update(a, turn), a, turn) || defenses_left(b.update(a, turn), turn, a).len() == 0,
    ensures
        attack_wins(b, a, turn, fuel),
{
}

/// An attack against which every defence left fails wins.
proof fn lemma_attack_by_defenses(b: Seq<u8>, a: int, turn: u8, fuel: nat)
    requires
        fuel > 0,
        threat_on(b.update(a, turn), a, turn),
        forall|k: int| 0 <= k < defenses_left(b.update(a, turn), turn, a).len() ==> {
            let d = #[trigger] defenses_left(b.update(a, turn), turn, a)[k] as int;
            &&& !five_on(b.update(a, turn).update(d, other_spec(turn)), d, other_spec(turn))
            &&& some_attack_wins(b.update(a, turn).update(d, other_spec(turn)), turn, (fuel - 1) as nat, 0)
        },
    ensures
        attack_wins(b, a, turn, fuel),
{
    let b1 = b.update(a, turn);
    let ds = defenses_left(b1, turn, a);
    assert forall|k: int| #![trigger ds[k]] 0 <= k < ds.len() implies {
        &&& !five_on(b1.update(ds[k] as int, other_spec(turn)), ds[k] as int, other_spec(turn))
        &&& some_attack_wins(b1.update(ds[k] as int, other_spec(turn)), turn, (fuel - 1) as nat, 0)
    } by {
        let d = ds[k] as int;
    }
}

/// Whether the defence on cell `d` against an attack of `turn` (already on
/// board `b1`) fails: it makes no five for the defender, and after it
/// `turn` has a winning attack within half the empty cells left.
pub open spec fn defense_fails(b1: Seq<u8>, d: int, turn: u8) -> bool {
    let b2 = b1.update(d, other_spec(turn));
    &&& !five_on(b2, d, other_spec(turn))
    &&& some_attack_wins(b2, turn, (empties(b2, 225) / 2) as nat, 0)
}

/// An attack on an empty cell after which every defence left fails wins
/// within half the empty cells.
proof fn lemma_attack_by_failed_defenses(b: Seq<u8>, a: int, turn: u8)
    requires
        0 <= a < 225,
        b.len() >= 225,
        b[a] == EMPTY,
        is_color(turn),
        threat_on(b.update(a, turn), a, turn),
        defenses_left(b.update(a, turn), turn, a).len() > 0,
        forall|j: int| 0 <= j < defenses_left(b.update(a, turn), turn, a).len() ==> {
            let d = #[trigger] defenses_left(b.update(a, turn), turn, a)[j] as int;
            0 <= d < 225 && b.update(a, turn)[d] == EMPTY && defense_fails(b.update(a, turn), d, turn)
        },
    ensures
        attack_wins(b, a, turn, (empties(b, 225) / 2) as nat),
{
    let b1 = b.update(a, turn);
    let ds = defenses_left(b1, turn, a);
    let d0 = ds[0] as int;
    lemma_empties_put(b, a, turn, 225);
    lemma_empties_put(b1, d0, other_spec(turn), 225);
    lemma_empties_bound(b1.update(d0, other_spec(turn)), 225);
    let e = empties(b, 225);
    assert(e >= 2);
    let fuel = (e / 2) as nat;
    assert forall|k: int| 0 <= k < ds.len() implies {
        let d = #[trigger] ds[k] as int;
        &&& !five_on(b1.update(d, other_spec(turn)), d, other_spec(turn))
        &&& some_attack_wins(b1.update(d, other_spec(turn)), turn, (fuel - 1) as nat, 0)
    } by {
        let d = ds[k] as int;
        lemma_empties_put(b1, d, other_spec(turn), 225);
        assert(empties(b1.update(d, other_spec(turn)), 225) == e - 2);
        assert((e - 2) / 2 == e / 2 - 1);
    }
    lemma_attack_by_defenses(b, a, turn, fuel);
}

/// Ordering the defences leaves every one of them in the list.
proof fn lemma_order_covers(
    b: Seq<u8>,
    bounds: Option<(usize, usize, usize, usize)>,
    defender: u8,
    attacker: u8,
    defs: Seq<usize>,
    out: Seq<usize>,
)
    requires
        defense_order(b, bounds, defender, attacker, defs, out),
    ensures
        forall|k: int| 0 <= k < defs.len() ==> out.contains(#[trigger] defs[k]),
{
    let perm = choose|perm: Seq<int>| #[trigger] ordered_by(b, bounds, defender, attacker, defs, out, perm);
    let n = defs.len() as int;
    assert(perm.no_duplicates()) by {
        assert forall|j: int, l: int| 0 <= j < perm.len() && 0 <= l < perm.len() && j != l implies perm[j] != perm[l] by {
            assert(0 <= perm[j] < n && 0 <= perm[l] < n);
        }
    }
    perm.unique_seq_to_set();
    vstd::set_lib::lemma_int_range(0, n);
    let range = vstd::set_lib::set_int_range(0, n);
    assert(perm.to_set().subset_of(range)) by {
        assert forall|v: int| perm.to_set().contains(v) implies range.contains(v) by {
            let j = choose|j: int| 0 <= j < perm.len() && perm[j] == v;
        }
    }
    vstd::set_lib::lemma_len_subset(perm.to_set(), range);
    vstd::set_lib::lemma_subset_equality(perm.to_set(), range);
    assert forall|k: int| 0 <= k < defs.len() implies out.contains(#[trigger] defs[k]) by {
        assert(range.contains(k));
        assert(perm.to_set().contains(k));
        let j = choose|j: int| 0 <= j < perm.len() && perm[j] == k;
        assert(out[j] == defs[perm[j]]);
    }
}

/// An attack followed by nothing (when it breaks through or leaves no
/// defence) or by a defended line is a line of continuous fours.
proof fn lemma_winning_prepend(b: Seq<u8>, idx: int, turn: u8, path: Seq<Move>, m: Move)
    requires
        0 <= idx < 225,
        threat_on(b.update(idx, turn), idx, turn),
        m.x == idx % 15,
        m.y == idx / 15,
        ({
            let b1 = b.update(idx, turn);
            ||| path.len() == 0 && (breaks_through(b1, idx, turn) || defenses_left(b1, turn, idx).len() == 0)
            ||| defended_line(b1, path, turn, defenses_left(b1, turn, idx))
        }),
    ensures
        winning_line(b, seq![m] + path, turn),
{
    reveal(winning_line);
    reveal(defended_line);
    let line = seq![m] + path;
    assert(cell_of(m) == idx);
    assert(line[0] == m);
    if path.len() > 0 {
        assert(line[1] == path[0]);
        assert(line.subrange(2, line.len() as int) =~= path.subrange(1, path.len() as int));
    }
}

/// A defence followed by a line of continuous fours is a defended line.
proof fn lemma_defended_prepend(b: Seq<u8>, idx: int, turn: u8, path: Seq<Move>, m: Move, defs: Seq<usize>)
    requires
        0 <= idx < 225,
        m.x == idx % 15,
        m.y == idx / 15,
        defs.contains(idx as usize),
        !five_on(b.update(idx, other_spec(turn)), idx, other_spec(turn)),
        winning_line(b.update(idx, other_spec(turn)), path, turn),
    ensures
        defended_line(b, seq![m] + path, turn, defs),
{
    reveal(defended_line);
    let line = seq![m] + path;
    assert(cell_of(m) == idx);
    assert(line[0] == m);
    assert(line.subrange(1, line.len() as int) =~= path);
}

/// The defences in the order tried are defences of the list ordered.
proof fn lemma_order_within(
    b: Seq<u8>,
    bounds: Option<(usize, usize, usize, usize)>,
    defender: u8,
    attacker: u8,
    defs: Seq<usize>,
    out: Seq<usize>,
)
    requires
        defense_order(b, bounds, defender, attacker, defs, out),
    ensures
        forall|j: int| 0 <= j < out.len() ==> defs.contains(#[trigger] out[j]),
{
    let perm = choose|perm: Seq<int>| #[trigger] ordered_by(b, bounds, defender, attacker, defs, out, perm);
    assert forall|j: int| 0 <= j < out.len() implies defs.contains(#[trigger] out[j]) by {
        assert(out[j] == defs[perm[j]]);
    }
}

/// A line defended with defences all in `big` is defended with `big`.
proof fn lemma_defended_wider(b: Seq<u8>, q: Seq<Move>, turn: u8, small: Seq<usize>, big: Seq<usize>)
    requires
        defended_line(b, q, turn, small),
        forall|j: int| 0 <= j < small.len() ==> big.contains(#[trigger] small[j]),
    ensures
        defended_line(b, q, turn, big),
{
    reveal(defended_line);
    let d = cell_of(q[0]) as usize;
    let j = choose|j: int| 0 <= j < small.len() && small[j] == d;
    assert(big.contains(small[j]));
}

impl Solver {
    /// The defences left against the attack of `turn` through `attack`.
    fn defenses_of(&self, attack: usize, turn: u8) -> (defenses: Vec<usize>)
        ensures
            defenses@ == defenses_left(self@.cells, turn, attack as int),
            forall|j: int| 0 <= j < defenses@.len() ==> #[trigger] defenses@[j] < 225 && self@.cells[defenses@[j] as int] == EMPTY,
    {
        let defenses = self.vcf_defenses(turn, attack);
        if other(turn) == BLACK {
            let allowed = self.allowed_defenses(&defenses);
            proof {
                assert forall|j: int| 0 <= j < allowed@.len() implies #[trigger] allowed@[j] < 225 && self@.cells[allowed@[j] as int] == EMPTY by {
                    assert(defenses@.contains(allowed@[j]));
                    let l = choose|l: int| 0 <= l < defenses@.len() && defenses@[l] == allowed@[j];
                    assert(defenses@[l] < 225);
                }
            }
            allowed
        } else {
            defenses
        }
    }

    /// Plays each defence against the attack on `attack` and looks for a VCF
    /// after it; takes the attack back before returning. A line found is the
    /// longest of the lines after the defences, each starting with its
    /// defence.
    #[verifier::spinoff_prover]
    #[verifier::rlimit(60)]
    fn refute_defenses<F: Fn() -> Signal>(
        &mut self,
        stop: &F,
        attack: usize,
        turn: u8,
        defenses: &Vec<usize>,
        depth: usize,
        max_depth: usize,
        legacy: bool,
    ) -> (r: Search)
        requires
            old(self).wf(),
            askable(*stop),
            is_color(turn),
            attack < 225,
            old(self)@.cells[attack as int] == turn,
            old(self)@.saved.len() > 0,
            forall|j: int| 0 <= j < defenses@.len() ==> #[trigger] defenses@[j] < 225 && old(self)@.cells[defenses@[j] as int] == EMPTY,
            depth + 2 * empties(old(self)@.cells, 225) <= 448,
            legacy ==> old(self).search_mode() != SearchMode::Shortest,
            old(self).search_mode() == SearchMode::Shortest ==> depth + 1 <= max_depth,
        ensures
            final(self).wf(),
            never_stops(*stop) ==> !(r is Timeout) && !(r is Cancelled),
            old(self).search_mode() == SearchMode::Shortest && depth + 3 == max_depth && never_stops(*stop) && !legacy && (forall|j: int|
                0 <= j < defenses@.len() ==> {
                    let d = #[trigger] defenses@[j] as int;
                    &&& !five_on(old(self)@.cells.update(d, other_spec(turn)), d, other_spec(turn))
                    &&& leaf_win(after_put(old(self)@, d, other_spec(turn)), turn)
                    &&& hash_free(old(self).tt, old(self)@.hash ^ search_key(d, other_spec(turn) as int))
                }) ==> r is Found,
            old(self).search_mode() == SearchMode::Shortest && depth + 2 > max_depth ==> final(self).tt == old(self).tt,
            old(self).search_mode() == SearchMode::Shortest && depth + 4 > max_depth ==> forall|h: u64, t: u8, g: u64|
                #[trigger] final(self).tt.lookup(h, t, g) != old(self).tt.lookup(h, t, g) ==> exists|d: int|
                    0 <= d < 225 && h == old(self)@.hash ^ search_key(d, other_spec(turn) as int),
            old(self).search_mode() == SearchMode::Shortest && depth + 4 > max_depth && r is Found ==> final(self).tt == old(self).tt,
            final(self).search_mode() == old(self).search_mode(),
            final(self)@ == after_remove(old(self)@, attack as int, turn),
            found_line(&r, old(self)@.cells, other_spec(turn), false),
            r matches Search::Found(p) ==> defenses@.len() > 0 ==> defended_line(old(self)@.cells, p@, turn, defenses@),
            r matches Search::Found(_) ==> forall|k: int| 0 <= k < defenses@.len() ==> defense_fails(old(self)@.cells, #[trigger] defenses@[k] as int, turn),
            old(self).search_mode() == SearchMode::Shortest ==> (r matches Search::Found(p) ==> depth + 1 + p@.len() <= max_depth),
        decreases empties(self@.cells, 225), 3int,
    {
        let ghost s1 = self@;
        let opponent = other(turn);
        let mut longest: Vec<Move> = Vec::new();
        let mut i: usize = 0;
        while i < defenses.len()
            invariant
                askable(*stop),
                self.wf(),
                self.search_mode() == old(self).search_mode(),
                self@ == s1,
                s1 == old(self)@,
                s1.cells[attack as int] == turn,
                s1.saved.len() > 0,
                is_color(turn),
                attack < 225,
                opponent == other_spec(turn),
                is_color(opponent),
                forall|j: int| 0 <= j < defenses@.len() ==> #[trigger] defenses@[j] < 225 && s1.cells[defenses@[j] as int] == EMPTY,
                legal_line(s1.cells, longest@, opponent),
                longest@.len() % 2 == 0,
                depth + 2 * empties(s1.cells, 225) <= 448,
                i > 0 ==> defended_line(s1.cells, longest@, turn, defenses@),
                i == 0 ==> longest@.len() == 0,
                i <= defenses@.len(),
                forall|k: int| 0 <= k < i ==> defense_fails(s1.cells, #[trigger] defenses@[k] as int, turn),
                legacy ==> old(self).search_mode() != SearchMode::Shortest,
                old(self).search_mode() == SearchMode::Shortest && depth + 4 > max_depth ==> self.tt == old(self).tt,
                old(self).search_mode() == SearchMode::Shortest ==> depth + 1 + longest@.len() <= max_depth,
            decreases defenses@.len() - i,
        {
            let defense = defenses[i];
            let (dx, dy) = xy(defense);
            self.put(defense, opponent);
            let ghost s2 = self@;
            proof {
                lemma_empties_put(s1.cells, defense as int, opponent, 225);
                lemma_empties_bound(s2.cells, 225);
                lemma_remove_undoes_put(s1, defense as int, opponent);
            }
            let result = if self.board.check_win(dx, dy, opponent) {
                Search::NotFound
            } else if self.mode == SearchMode::Shortest && depth + 2 > max_depth {
                Search::NotFound
            } else {
                let deeper = if legacy {
                    self.solve_at_legacy(stop, turn, depth + 2, max_depth)
                } else {
                    self.solve_at(stop, turn, depth + 2, max_depth)
                };
                match deeper {
                    Search::Found(path) => {
                        let m = Move { x: dx, y: dy, color: opponent };
                        proof {
                            let a2 = cell_of(path@[0]);
                            assert(s2.cells[a2] == EMPTY);
                            lemma_some_from(s2.cells, turn, (empties(s2.cells, 225) / 2) as nat, 0, a2);
                            assert(defense_fails(s1.cells, defense as int, turn));
                        }
                        let mut line = path;
                        line.insert(0, m);
                        proof {
                            assert(line@ =~= seq![m] + path@);
                            lemma_legal_prepend(s1.cells, defense as int, opponent, path@, m);
                            assert(defenses@[i as int] == defense);
                            assert(defenses@.contains(defense));
                            lemma_defended_prepend(s1.cells, defense as int, turn, path@, m, defenses@);
                        }
                        Search::Found(line)
                    },
                    Search::NotFound => Search::NotFound,
                    Search::Timeout => Search::Timeout,
                    Search::Cancelled => Search::Cancelled,
                }
            };
            proof {
                assert(result matches Search::Found(p) ==> p@.len() > 0 && defended_line(s1.cells, p@, turn, defenses@));
                assert(result matches Search::Found(_) ==> defense_fails(s1.cells, defense as int, turn));
            }
            self.remove(defense, opponent);
            match result {
                Search::Found(path) => {
                    if path.len() > longest.len() {
                        longest = path;
                    }
                },
                Search::Timeout => {
                    self.remove(attack, turn);
                    return Search::Timeout;
                },
                Search::Cancelled => {
                    self.remove(attack, turn);
                    return Search::Cancelled;
                },
                Search::NotFound => {
                    self.remove(attack, turn);
                    return Search::NotFound;
                },
            }
            i += 1;
        }
        self.remove(attack, turn);
        Search::Found(longest)
    }

    /// Checks the attack `attack` of `turn`: it wins at once (a five or an
    /// open four), or no defence is left, or every defence loses to a
    /// further VCF. A line found starts with the defender's move (it is
    /// empty when nothing needs answering) and can be played after the
    /// attack.
    #[verifier::spinoff_prover]
    #[verifier::rlimit(60)]
    fn verify_move<F: Fn() -> Signal>(&mut self, stop: &F, attack: usize, turn: u8, depth: usize, max_depth: usize) -> (r: Search)
        requires
            old(self).wf(),
            askable(*stop),
            is_color(turn),
            attack < 225,
            old(self)@.cells[attack as int] == EMPTY,
            threat_on(old(self)@.cells.update(attack as int, turn), attack as int, turn),
            depth + 2 * empties(old(self)@.cells, 225) <= 450,
            old(self).search_mode() == SearchMode::Shortest ==> depth + 1 <= max_depth,
        ensures
            final(self).wf(),
            never_stops(*stop) ==> !(r is Timeout) && !(r is Cancelled),
            never_stops(*stop) && wins_at_once(old(self)@.cells, attack as int, turn) ==> r is Found,
            old(self).search_mode() == SearchMode::Shortest && depth + 3 == max_depth && never_stops(*stop) && four_three_at(old(self)@, attack as int, turn) && (forall|d: int|
                0 <= d < 225 ==> #[trigger] hash_free(
                    old(self).tt,
                    old(self)@.hash ^ search_key(attack as int, turn as int) ^ search_key(d, other_spec(turn) as int),
                )) ==> r is Found,
            old(self).search_mode() == SearchMode::Shortest && depth + 2 > max_depth ==> final(self).tt == old(self).tt,
            old(self).search_mode() == SearchMode::Shortest && depth + 4 > max_depth ==> forall|h: u64, t: u8, g: u64|
                #[trigger] final(self).tt.lookup(h, t, g) != old(self).tt.lookup(h, t, g) ==> exists|d: int|
                    0 <= d < 225 && h == old(self)@.hash ^ search_key(attack as int, turn as int) ^ search_key(d, other_spec(turn) as int),
            old(self).search_mode() == SearchMode::Shortest && depth + 4 > max_depth && r is Found ==> final(self).tt == old(self).tt,
            final(self).search_mode() == old(self).search_mode(),
            final(self)@ == old(self)@,
            found_line(&r, old(self)@.cells.update(attack as int, turn), other_spec(turn), false),
            r matches Search::Found(p) ==> {
                let b1 = old(self)@.cells.update(attack as int, turn);
                ||| p@.len() == 0 && (breaks_through(b1, attack as int, turn) || defenses_left(b1, turn, attack as int).len() == 0)
                ||| defended_line(b1, p@, turn, defenses_left(b1, turn, attack as int))
            },
            r matches Search::Found(_) ==> attack_wins(old(self)@.cells, attack as int, turn, (empties(old(self)@.cells, 225) / 2) as nat),
            old(self).search_mode() == SearchMode::Shortest ==> (r matches Search::Found(p) ==> depth + 1 + p@.len() <= max_depth),
            r is NotFound ==> !five_c(old(self)@.cells.update(attack as int, turn), attack as int % 15, attack as int / 15, turn),
        decreases empties(self@.cells, 225), 0int,
    {
        let signal = stop();
        match signal {
            Signal::TimeUp => {
                return Search::Timeout;
            },
            Signal::Cancel => {
                return Search::Cancelled;
            },
            Signal::Go => {},
        }
        let ghost s0 = self@;
        let (ax, ay) = xy(attack);
        self.put(attack, turn);
        proof {
            lemma_remove_undoes_put(s0, attack as int, turn);
            lemma_empties_put(s0.cells, attack as int, turn, 225);
        }
        if self.board.check_win(ax, ay, turn) || self.board.valid_straight_four(ax, ay, turn) {
            self.remove(attack, turn);
            proof {
                lemma_attack_breaks(s0.cells, attack as int, turn, (empties(s0.cells, 225) / 2) as nat);
            }
            return Search::Found(Vec::new());
        }
        let mut defenses = self.defenses_of(attack, turn);
        if defenses.len() == 0 {
            self.remove(attack, turn);
            proof {
                lemma_attack_breaks(s0.cells, attack as int, turn, (empties(s0.cells, 225) / 2) as nat);
            }
            return Search::Found(Vec::new());
        }
        let ghost listed = defenses@;
        self.order_defenses(&mut defenses, other(turn), turn);
        proof {
            assert(self@ == after_put(s0, attack as int, turn));
            assert(empties(self@.cells, 225) == empties(s0.cells, 225) - 1);
            lemma_empties_bound(self@.cells, 225);
            lemma_order_within(self@.cells, self@.bounds, other_spec(turn), turn, listed, defenses@);
        }
        proof {
            lemma_order_covers(self@.cells, self@.bounds, other_spec(turn), turn, listed, defenses@);
        }
        let ghost ordered = defenses@;
        let r = self.refute_defenses(stop, attack, turn, &defenses, depth, max_depth, false);
        proof {
            let b1 = s0.cells.update(attack as int, turn);
            match &r {
                Search::Found(p) => {
                    lemma_defended_wider(b1, p@, turn, defenses@, listed);
                    assert forall|j: int| 0 <= j < listed.len() implies {
                        let d = #[trigger] listed[j] as int;
                        0 <= d < 225 && b1[d] == EMPTY && defense_fails(b1, d, turn)
                    } by {
                        assert(ordered.contains(listed[j]));
                        let q = choose|q: int| 0 <= q < ordered.len() && ordered[q] == listed[j];
                        assert(defense_fails(b1, ordered[q] as int, turn));
                    }
                    lemma_attack_by_failed_defenses(s0.cells, attack as int, turn);
                },
                _ => {},
            }
        }
        r
    }

    /// The `Long` version of `verify_move`: the defences are tried in the
    /// order found.
    #[verifier::spinoff_prover]
    #[verifier::rlimit(60)]
    fn verify_move_legacy<F: Fn() -> Signal>(&mut self, stop: &F, attack: usize, turn: u8, depth: usize, max_depth: usize) -> (r: Search)
        requires
            old(self).wf(),
            askable(*stop),
            is_color(turn),
            attack < 225,
            old(self)@.cells[attack as int] == EMPTY,
            threat_on(old(self)@.cells.update(attack as int, turn), attack as int, turn),
            depth + 2 * empties(old(self)@.cells, 225) <= 450,
            old(self).search_mode() != SearchMode::Shortest,
        ensures
            final(self).wf(),
            never_stops(*stop) ==> !(r is Timeout) && !(r is Cancelled),
            final(self).search_mode() == old(self).search_mode(),
            final(self)@ == old(self)@,
            found_line(&r, old(self)@.cells.update(attack as int, turn), other_spec(turn), false),
            r matches Search::Found(p) ==> {
                let b1 = old(self)@.cells.update(attack as int, turn);
                ||| p@.len() == 0 && (breaks_through(b1, attack as int, turn) || defenses_left(b1, turn, attack as int).len() == 0)
                ||| defended_line(b1, p@, turn, defenses_left(b1, turn, attack as int))
            },
            r matches Search::Found(_) ==> attack_wins(old(self)@.cells, attack as int, turn, (empties(old(self)@.cells, 225) / 2) as nat),
            r is NotFound ==> !five_c(old(self)@.cells.update(attack as int, turn), attack as int % 15, attack as int / 15, turn),
        decreases empties(self@.cells, 225), 0int,
    {
        let signal = stop();
        match signal {
            Signal::TimeUp => {
                return Search::Timeout;
            },
            Signal::Cancel => {
                return Search::Cancelled;
            },
            Signal::Go => {},
        }
        let ghost s0 = self@;
        let (ax, ay) = xy(attack);
        self.put(attack, turn);
        proof {
            lemma_remove_undoes_put(s0, attack as int, turn);
            lemma_empties_put(s0.cells, attack as int, turn, 225);
        }
        if self.board.check_win(ax, ay, turn) || self.board.valid_straight_four(ax, ay, turn) {
            self.remove(attack, turn);
            proof {
                lemma_attack_breaks(s0.cells, attack as int, turn, (empties(s0.cells, 225) / 2) as nat);
            }
            return Search::Found(Vec::new());
        }
        let defenses = self.defenses_of(attack, turn);
        if defenses.len() == 0 {
            self.remove(attack, turn);
            proof {
                lemma_attack_breaks(s0.cells, attack as int, turn, (empties(s0.cells, 225) / 2) as nat);
            }
            return Search::Found(Vec::new());
        }
        proof {
            assert(self@ == after_put(s0, attack as int, turn));
            assert(empties(self@.cells, 225) == empties(s0.cells, 225) - 1);
            lemma_empties_bound(self@.cells, 225);
        }
        let r = self.refute_defenses(stop, attack, turn, &defenses, depth, max_depth, true);
        proof {
            let b1 = s0.cells.update(attack as int, turn);
            if r matches Search::Found(_) {
                assert forall|j: int| 0 <= j < defenses@.len() implies {
                    let d = #[trigger] defenses@[j] as int;
                    0 <= d < 225 && b1[d] == EMPTY && defense_fails(b1, d, turn)
                } by {
                    assert(defense_fails(b1, defenses@[j] as int, turn));
                }
                lemma_attack_by_failed_defenses(s0.cells, attack as int, turn);
            }
        }
        r
    }
}


/// What a move does under the rules: its forbidden-move verdict, whether it
/// wins or makes a four, the opponent's first winning cell, the defences
/// against it, the attacks that follow it, whether it makes an open four,
/// and how many fours it makes.
#[derive(Clone, Debug, PartialEq, Eq)]
pub struct RuleSnapshot {
    pub forbidden: Option<&'static str>,
    pub wins: bool,
    pub makes_four: bool,
    pub immediate_win: Option<usize>,
    pub defenses: Vec<usize>,
    pub attacks: Vec<usize>,
    pub straight_four: bool,
    pub four_count: usize,
}

/// Number of fours of `color` through (x, y), over the four directions.
pub open spec fn four_total(b: Seq<u8>, x: int, y: int, color: u8) -> int {
    four_count_c(b, x, y, 0, color) + four_count_c(b, x, y, 1, color) + four_count_c(b, x, y, 2, color)
        + four_count_c(b, x, y, 3, color)
}

/// The first element of `s`, if any.
pub open spec fn first_of(s: Seq<usize>) -> Option<usize> {
    if s.len() > 0 {
        Some(s[0])
    } else {
        None
    }
}

/// The verdict `v` given as its name.
pub open spec fn named(v: Option<BlackForbiddenKind>, s: Option<&'static str>) -> bool {
    match v {
        Some(k) => s is Some && s->0@ == kind_name(k),
        None => s is None,
    }
}

/// Number of stones (non-empty cells) among the first `n`.
pub open spec fn stones(b: Seq<u8>, n: int) -> int {
    n - empties(b, n)
}

/// Whether `turn` has no move that makes five on an empty cell of the
/// searched rectangle of board `b`.
pub open spec fn no_five_move(b: Seq<u8>, bounds: Option<(usize, usize, usize, usize)>, turn: u8) -> bool {
    forall|i: int| #![trigger b.update(i, turn)] in_rect(range_of(bounds), i) && b[i] == EMPTY ==> !five_c(b.update(i, turn), i % 15, i / 15, turn)
}

/// When every listed attack has been tried and none made five, `turn` has
/// no move that makes five in the searched rectangle.
proof fn lemma_no_five_listed(
    b: Seq<u8>,
    turn: u8,
    ow: Seq<usize>,
    bounds: Option<(usize, usize, usize, usize)>,
    listed: Seq<usize>,
    tried: Seq<usize>,
)
    requires
        attack_list(b, turn, ow, bounds, listed),
        forall|x: usize| listed.contains(x) ==> tried.contains(x),
        forall|j: int| 0 <= j < tried.len() ==> !five_c(b.update(#[trigger] tried[j] as int, turn), tried[j] as int % 15,
            tried[j] as int / 15, turn),
    ensures
        no_five_move(b, bounds, turn),
{
    assert forall|i: int| #![trigger b.update(i, turn)] in_rect(range_of(bounds), i) && b[i] == EMPTY implies !five_c(
        b.update(i, turn),
        i % 15,
        i / 15,
        turn,
    ) by {
        if five_c(b.update(i, turn), i % 15, i / 15, turn) {
            assert(attack_on(b, i, turn, ow));
            assert(listed.contains(i as usize));
            assert(tried.contains(i as usize));
            let j = choose|j: int| 0 <= j < tried.len() && tried[j] == i as usize;
            assert(!five_c(b.update(tried[j] as int, turn), tried[j] as int % 15, tried[j] as int / 15, turn));
        }
    }
}

proof fn lemma_schedule_positive(m: usize, jump: bool)
    ensures
        jump ==> jump_schedule(m).len() >= 1 && forall|j: int| 0 <= j < jump_schedule(m).len() ==> #[trigger] jump_schedule(m)[j] >= 1,
        !jump ==> linear_schedule(m).len() >= 1 && forall|j: int| 0 <= j < linear_schedule(m).len() ==> #[trigger] linear_schedule(m)[j] >= 1,
{
    let d = odd_depth(m);
    let o = odd_upto(d);
    let o2 = odd_upto(if d < 21 { d } else { 21 });
    let l = long_steps(d);
    assert forall|j: int| 0 <= j < linear_schedule(m).len() implies #[trigger] linear_schedule(m)[j] >= 1 by {
        if j < o.len() {
            assert(o[j] == (2 * j + 1) as usize);
        }
    }
    assert forall|j: int| 0 <= j < jump_schedule(m).len() implies #[trigger] jump_schedule(m)[j] >= 1 by {
        let c = o2 + l;
        if j < o2.len() {
            assert(c[j] == o2[j]);
            assert(o2[j] == (2 * j + 1) as usize);
        } else if j < c.len() {
            assert(c[j] == l[j - o2.len()]);
        }
    }
}

/// The deepest search of the shortest search: `max_depth`, but no more than
/// the empty cells, and at least 1.
pub open spec fn depth_cap(max_depth: usize, board: Seq<u8>) -> int {
    let c = if (max_depth as int) < empties(board, 225) { max_depth as int } else { empties(board, 225) };
    if c > 1 {
        c
    } else {
        1
    }
}

proof fn lemma_linear_schedule_bound(e: usize)
    requires
        e >= 1,
    ensures
        forall|j: int| 0 <= j < linear_schedule(e).len() ==> #[trigger] linear_schedule(e)[j] <= e,
{
    let m = odd_depth(e);
    let o = odd_upto(m);
    assert forall|j: int| 0 <= j < linear_schedule(e).len() implies #[trigger] linear_schedule(e)[j] <= e by {
        if j < o.len() {
            assert(o[j] == (2 * j + 1) as usize);
            assert(2 * j + 1 <= m);
        }
    }
}

/// Whether `r` reports a line that can be played from `board` starting
/// with `turn` and ending with `turn`'s move, a line of continuous fours
/// (each defence in it one of those left, the last attack breaking through
/// or leaving no defence), whose first attack wins against every defence
/// left, by continuous fours, within half the empty cells.
pub open spec fn solution_ok(r: SolveOutcome, board: Seq<u8>, turn: u8) -> bool {
    match r {
        SolveOutcome::Found(p) => {
            &&& legal_line(board, p@, turn)
            &&& p@.len() % 2 == 1
            &&& winning_line(padded(board), p@, turn)
            &&& attack_wins(padded(board), cell_of(p@[0]), turn, (empties(padded(board), 225) / 2) as nat)
        },
        _ => true,
    }
}

proof fn lemma_legal_padded(b: Seq<u8>, p: Seq<Move>, c: u8)
    requires
        b.len() == 225,
    ensures
        legal_line(padded(b), p, c) == legal_line(b, p, c),
    decreases p.len(),
{
    if p.len() > 0 {
        let m = p[0];
        let i = m.y * 15 + m.x;
        if m.x < 15 && m.y < 15 {
            assert(i < 225);
            assert(padded(b).update(i, c) =~= padded(b.update(i, c)));
            lemma_legal_padded(b.update(i, c), p.drop_first(), other_spec(c));
        }
    }
}

fn count_empty(board: &[u8; 225]) -> (n: usize)
    ensures
        n == empties(board@, 225),
        n <= 225,
{
    let mut n: usize = 0;
    let mut i: usize = 0;
    while i < BOARD_CELLS
        invariant
            i <= 225,
            n == empties(board@, i as int),
            n <= i,
        decreases 225 - i,
    {
        if board[i] == EMPTY {
            n += 1;
        }
        i += 1;
    }
    n
}

impl Solver {
    /// The rule facts of a stone of `color` on the empty cell `idx`; an
    /// error for a cell off the board or a colour that is no stone
    /// ("invalid move"), or for an occupied cell ("occupied").
    pub fn inspect_move(board: [u8; 225], idx: usize, color: u8) -> (r: Result<RuleSnapshot, String>)
        requires
            valid_board(board@),
        ensures
            (idx >= 225 || !is_color(color)) ==> r is Err && r->Err_0@ == "invalid move"@,
            (idx < 225 && is_color(color) && board@[idx as int] != EMPTY) ==> r is Err && r->Err_0@ == "occupied"@,
            (idx < 225 && is_color(color) && board@[idx as int] == EMPTY) ==> r is Ok && ({
                let s = r->Ok_0;
                let b2 = padded(board@).update(idx as int, color);
                let bounds = board_bounds(board@, 225);
                let x = (idx % 15) as int;
                let y = (idx / 15) as int;
                &&& s.wins == five_c(b2, x, y, color)
                &&& named(
                    if color == BLACK && !s.wins { placed_verdict(b2.subrange(0, 225), idx as int, true) } else { None },
                    s.forbidden,
                )
                &&& s.makes_four == makes_four_c(b2, x, y, color)
                &&& s.defenses@ == defense_cells(b2, color, idx as int)
                &&& s.immediate_win == first_of(winning_cells(b2, other_spec(color), bounds))
                &&& attack_list(b2, color, Seq::empty(), bounds, s.attacks@)
                &&& s.straight_four == straight_four_c(b2, x, y, color)
                &&& s.four_count == four_total(b2, x, y, color)
            }),
    {
        if idx >= BOARD_CELLS || (color != BLACK && color != WHITE) {
            proof {
                reveal_strlit("invalid move");
            }
            return Err(String::from_str("invalid move"));
        }
        if board[idx] != EMPTY {
            proof {
                reveal_strlit("occupied");
            }
            return Err(String::from_str("occupied"));
        }
        let mut solver = Self::new(board, SearchMode::Fast);
        let ghost b2 = padded(board@).update(idx as int, color);
        let (x, y) = xy(idx);
        solver.board.set(idx, color);
        proof {
            assert(valid_board(solver@.cells));
            assert(solver.keys_ok());
            assert(box_ok(solver@.bounds));
        }
        let wins = solver.board.check_win(x, y, color);
        let forbidden = if color == BLACK && !wins {
            match solver.forbidden(x, y, true) {
                Some(kind) => Some(kind.as_str()),
                None => None,
            }
        } else {
            None
        };
        let makes_four = solver.board.makes_four_or_five(x, y, color);
        let defenses = solver.vcf_defenses(color, idx);
        let wins_after = solver.winning_moves(other(color));
        let immediate_win = if wins_after.len() > 0 { Some(wins_after[0]) } else { None };
        let none: Vec<usize> = Vec::new();
        let attacks = solver.vcf_attacks(color, none.as_slice());
        let straight_four = solver.board.valid_straight_four(x, y, color);
        let mut four_count: usize = 0;
        let mut d: usize = 0;
        while d < 4
            invariant
                solver@.cells == b2,
                on_board(x as int, y as int),
                d <= 4,
                four_count == (if d >= 1 { four_count_c(b2, x as int, y as int, 0, color) } else { 0 }) + (if d
                    >= 2 { four_count_c(b2, x as int, y as int, 1, color) } else { 0 }) + (if d >= 3 {
                    four_count_c(b2, x as int, y as int, 2, color)
                } else { 0 }) + (if d >= 4 { four_count_c(b2, x as int, y as int, 3, color) } else { 0 }),
                four_count <= 5 * d,
            decreases 4 - d,
        {
            four_count += solver.board.four_patterns(x, y, d, color);
            d += 1;
        }
        proof {
            assert(none@ =~= Seq::<usize>::empty());
            assert(x as int == (idx % 15) as int && y as int == (idx / 15) as int);
            assert(y * 15 + x == idx);
        }
        Ok(RuleSnapshot { forbidden, wins, makes_four, immediate_win, defenses, attacks, straight_four, four_count })
    }

    /// The first cell (row by row) where a stone of `color` wins at once.
    pub fn immediate_win(board: [u8; 225], color: u8) -> (r: Option<usize>)
        requires
            valid_board(board@),
            is_color(color),
        ensures
            r == first_of(winning_cells(padded(board@), color, board_bounds(board@, 225))),
    {
        let solver = Self::new(board, SearchMode::Fast);
        let wins = solver.winning_moves(color);
        if wins.len() > 0 {
            Some(wins[0])
        } else {
            None
        }
    }

    /// The cells that stop the four (or five) of `attacker` through `last`.
    pub fn vcf_defenses_for(board: [u8; 225], attacker: u8, last: usize) -> (r: Vec<usize>)
        requires
            valid_board(board@),
        ensures
            r@ == defense_cells(padded(board@), attacker, last as int),
    {
        Self::new(board, SearchMode::Fast).vcf_defenses(attacker, last)
    }

    /// The attacks of `color`, best first.
    pub fn vcf_attacks_for(board: [u8; 225], color: u8) -> (r: Vec<usize>)
        requires
            valid_board(board@),
            is_color(color),
        ensures
            attack_list(padded(board@), color, Seq::empty(), board_bounds(board@, 225), r@),
    {
        let none: Vec<usize> = Vec::new();
        let r = Self::new(board, SearchMode::Fast).vcf_attacks(color, none.as_slice());
        proof {
            assert(none@ =~= Seq::<usize>::empty());
        }
        r
    }

    /// The name of the forbidden move a black stone on `idx` would be, if
    /// any.
    pub fn is_black_forbidden(board: [u8; 225], idx: usize) -> (r: Option<&'static str>)
        ensures
            named(forbidden_move(board@, idx as int), r),
    {
        match is_forbidden(board, idx) {
            Some(kind) => Some(kind.as_str()),
            None => None,
        }
    }

    /// Searches for a VCF of `turn` within `time_limit`.
    pub fn solve(board: [u8; 225], turn: u8, max_depth: usize, time_limit: Duration, mode: SearchMode) -> (r: SolveOutcome)
        requires
            valid_board(board@),
            is_color(turn),
        ensures
            solution_ok(r, board@, turn),
            r is NotFound ==> no_five_move(padded(board@), board_bounds(board@, 225), turn),
    {
        Self::solve_with_cancel(board, turn, max_depth, time_limit, Arc::new(AtomicBool::new(false)), mode)
    }

    /// Searches for a VCF of `turn` within `time_limit`, stopping when
    /// `cancel` is set: depth by depth, up to `max_depth` (at most the
    /// number of empty cells, at least 1). This is `solve_with_stop` asked
    /// by the clock and the flag; what they answer is not known here, so
    /// the contract leaves out when the search is stopped.
    pub fn solve_with_cancel(
        board: [u8; 225],
        turn: u8,
        max_depth: usize,
        time_limit: Duration,
        cancel: Arc<AtomicBool>,
        mode: SearchMode,
    ) -> (r: SolveOutcome)
        requires
            valid_board(board@),
            is_color(turn),
        ensures
            solution_ok(r, board@, turn),
            r is NotFound ==> no_five_move(padded(board@), board_bounds(board@, 225), turn),
    {
        let started = clock_now();
        let stop = move || clock_signal(&started, &time_limit, &cancel);
        Self::solve_with_stop(board, turn, max_depth, mode, &stop)
    }

    /// Searches for a VCF of `turn` depth by depth, up to `max_depth` (at
    /// most the number of empty cells, at least 1), asking `stop` before
    /// each step whether to go on. A search never told to stop ends in
    /// `Found` or `NotFound`; one told to stop at once ends that way.
    pub fn solve_with_stop<F: Fn() -> Signal>(board: [u8; 225], turn: u8, max_depth: usize, mode: SearchMode, stop: &F) -> (r: SolveOutcome)
        requires
            valid_board(board@),
            is_color(turn),
            askable(*stop),
        ensures
            solution_ok(r, board@, turn),
            r is NotFound ==> no_five_move(padded(board@), board_bounds(board@, 225), turn),
            never_stops(*stop) ==> !(r is Timeout) && !(r is Cancelled),
            always_answers(*stop, Signal::TimeUp) ==> r is Timeout,
            always_answers(*stop, Signal::Cancel) ==> r is Cancelled,
            mode == SearchMode::Shortest && never_stops(*stop) && depth_cap(max_depth, board@) >= 3 && pair_keys_distinct(turn)
                && four_three(start_state(board@), turn) ==> r is Found,
            mode == SearchMode::Shortest && never_stops(*stop) && leaf_win(start_state(board@), turn) ==> r is Found,
    {
        let mut solver = Self::new(board, mode);
        let empty_cells = count_empty(&board);
        let capped = if max_depth < empty_cells { max_depth } else { empty_cells };
        let effective_depth = if capped > 1 { capped } else { 1 };
        let depths = match mode {
            SearchMode::Fast => depth_schedule(effective_depth),
            SearchMode::Shortest => linear_depth_schedule(effective_depth),
            SearchMode::Long => depth_schedule(effective_depth),
        };
        proof {
            lemma_empties_same(padded(board@), board@, 225);
            lemma_empties_bound(board@, 225);
            lemma_schedule_positive(effective_depth, true);
            lemma_schedule_positive(effective_depth, false);
            lemma_empties_bound(board@, 225);
            assert(effective_depth as int == depth_cap(max_depth, board@));
        }
        let ghost s0 = solver@;
        let mut k: usize = 0;
        while k < depths.len()
            invariant
                solver.wf(),
                solver@ == s0,
                s0.cells == padded(board@),
                empties(s0.cells, 225) <= 225,
                is_color(turn),
                s0.bounds == board_bounds(board@, 225),
                solver.search_mode() == mode,
                depths@.len() >= 1,
                forall|j: int| 0 <= j < depths@.len() ==> #[trigger] depths@[j] >= 1,
                k >= 1 ==> no_five_move(padded(board@), board_bounds(board@, 225), turn),
                askable(*stop),
                always_answers(*stop, Signal::TimeUp) || always_answers(*stop, Signal::Cancel) ==> k == 0,
                s0 == start_state(board@),
                mode == SearchMode::Shortest && never_stops(*stop) && leaf_win(start_state(board@), turn) ==> k == 0,
                mode == SearchMode::Shortest ==> depths@ == linear_schedule(effective_depth),
                effective_depth as int == depth_cap(max_depth, board@),
                mode == SearchMode::Shortest && never_stops(*stop) && pair_keys_distinct(turn) && four_three(start_state(board@), turn)
                    ==> forall|j: int| 0 <= j < k ==> #[trigger] depths@[j] != 3,
            decreases depths@.len() - k,
        {
            solver.tt.clear();
            solver.legacy_tt.clear();
            match solver.solve_at(stop, turn, 0, depths[k]) {
                Search::Found(path) => {
                    proof {
                        lemma_legal_padded(board@, path@, turn);
                    }
                    return SolveOutcome::Found(path);
                },
                Search::Timeout => {
                    return SolveOutcome::Timeout;
                },
                Search::Cancelled => {
                    return SolveOutcome::Cancelled;
                },
                Search::NotFound => {},
            }
            k += 1;
        }
        proof {
            lemma_schedule_starts_at_one(effective_depth);
            if mode == SearchMode::Shortest && effective_depth >= 3 {
                lemma_schedule_has_three(effective_depth);
                assert(depths@[1] == 3);
            }
        }
        SolveOutcome::NotFound
    }

    /// Searches for the shortest VCF of `turn` within `time_limit`.
    pub fn solve_shortest(board: [u8; 225], turn: u8, max_depth: usize, time_limit: Duration) -> (r: SolveOutcome)
        requires
            valid_board(board@),
            is_color(turn),
        ensures
            solution_ok(r, board@, turn),
            r is NotFound ==> no_five_move(padded(board@), board_bounds(board@, 225), turn),
            r matches SolveOutcome::Found(p) ==> p@.len() <= depth_cap(max_depth, board@),
    {
        Self::solve_shortest_with_cancel(board, turn, max_depth, time_limit, Arc::new(AtomicBool::new(false)))
    }

    /// Searches for the shortest VCF of `turn`, trying every odd depth in
    /// turn, stopping when `cancel` is set. This is
    /// `solve_shortest_with_stop` asked by the clock and the flag; what they
    /// answer is not known here, so the contract leaves out when the search
    /// is stopped.
    pub fn solve_shortest_with_cancel(
        board: [u8; 225],
        turn: u8,
        max_depth: usize,
        time_limit: Duration,
        cancel: Arc<AtomicBool>,
    ) -> (r: SolveOutcome)
        requires
            valid_board(board@),
            is_color(turn),
        ensures
            solution_ok(r, board@, turn),
            r is NotFound ==> no_five_move(padded(board@), board_bounds(board@, 225), turn),
            r matches SolveOutcome::Found(p) ==> p@.len() <= depth_cap(max_depth, board@),
    {
        let started = clock_now();
        let stop = move || clock_signal(&started, &time_limit, &cancel);
        Self::solve_shortest_with_stop(board, turn, max_depth, &stop)
    }

    /// Searches for the shortest VCF of `turn`, trying every odd depth in
    /// turn, asking `stop` before each step whether to go on. A search
    /// never told to stop ends in `Found` or `NotFound`; one told to stop
    /// at once ends that way.
    pub fn solve_shortest_with_stop<F: Fn() -> Signal>(board: [u8; 225], turn: u8, max_depth: usize, stop: &F) -> (r: SolveOutcome)
        requires
            valid_board(board@),
            is_color(turn),
            askable(*stop),
        ensures
            solution_ok(r, board@, turn),
            r is NotFound ==> no_five_move(padded(board@), board_bounds(board@, 225), turn),
            r matches SolveOutcome::Found(p) ==> p@.len() <= depth_cap(max_depth, board@),
            never_stops(*stop) ==> !(r is Timeout) && !(r is Cancelled),
            always_answers(*stop, Signal::TimeUp) ==> r is Timeout,
            always_answers(*stop, Signal::Cancel) ==> r is Cancelled,
            never_stops(*stop) && depth_cap(max_depth, board@) >= 3 && pair_keys_distinct(turn) && four_three(start_state(board@), turn)
                ==> r is Found,
            never_stops(*stop) && leaf_win(start_state(board@), turn) ==> r is Found,
    {
        let mut solver = Self::new(board, SearchMode::Shortest);
        let empty_cells = count_empty(&board);
        let capped = if max_depth < empty_cells { max_depth } else { empty_cells };
        let effective_depth = if capped > 1 { capped } else { 1 };
        let depths = linear_depth_schedule(effective_depth);
        proof {
            lemma_schedule_positive(effective_depth, false);
            lemma_linear_schedule_bound(effective_depth);
            lemma_empties_bound(board@, 225);
            assert(effective_depth as int == depth_cap(max_depth, board@));
            lemma_empties_same(padded(board@), board@, 225);
            lemma_empties_bound(board@, 225);
        }
        let ghost s0 = solver@;
        let mut k: usize = 0;
        while k < depths.len()
            invariant
                solver.wf(),
                solver@ == s0,
                s0.cells == padded(board@),
                empties(s0.cells, 225) <= 225,
                is_color(turn),
                s0 == solver@,
                solver.search_mode() == SearchMode::Shortest,
                depths@ == linear_schedule(effective_depth),
                effective_depth as int == depth_cap(max_depth, board@),
                forall|j: int| 0 <= j < depths@.len() ==> #[trigger] depths@[j] <= effective_depth,
                s0.bounds == board_bounds(board@, 225),
                depths@.len() >= 1,
                forall|j: int| 0 <= j < depths@.len() ==> #[trigger] depths@[j] >= 1,
                k >= 1 ==> no_five_move(padded(board@), board_bounds(board@, 225), turn),
                askable(*stop),
                always_answers(*stop, Signal::TimeUp) || always_answers(*stop, Signal::Cancel) ==> k == 0,
                s0 == start_state(board@),
                never_stops(*stop) && leaf_win(start_state(board@), turn) ==> k == 0,
                never_stops(*stop) && pair_keys_distinct(turn) && four_three(start_state(board@), turn) ==> forall|j: int|
                    0 <= j < k ==> #[trigger] depths@[j] != 3,
            decreases depths@.len() - k,
        {
            solver.tt.clear();
            match solver.solve_at(stop, turn, 0, depths[k]) {
                Search::Found(path) => {
                    proof {
                        lemma_legal_padded(board@, path@, turn);
                    }
                    return SolveOutcome::Found(path);
                },
                Search::Timeout => {
                    return SolveOutcome::Timeout;
                },
                Search::Cancelled => {
                    return SolveOutcome::Cancelled;
                },
                Search::NotFound => {},
            }
            k += 1;
        }
        proof {
            lemma_schedule_starts_at_one(effective_depth);
            if effective_depth >= 3 {
                lemma_schedule_has_three(effective_depth);
                assert(depths@[1] == 3);
            }
        }
        SolveOutcome::NotFound
    }

    /// The forbidden cells of Black, when Black is to move (none otherwise).
    pub fn black_forbidden_points(board: [u8; 225]) -> (r: Vec<usize>)
        ensures
            r@ == if count_cells(board@, BLACK) == count_cells(board@, WHITE) {
                forbidden_cells(board@)
            } else {
                Seq::empty()
            },
    {
        match side_to_move(&board) {
            Ok(c) => {
                if c == BLACK {
                    Self::black_forbidden_points_unchecked(board)
                } else {
                    Vec::new()
                }
            },
            Err(_) => Vec::new(),
        }
    }

    /// The forbidden cells of Black, whoever is to move.
    pub fn black_forbidden_points_unchecked(board: [u8; 225]) -> (r: Vec<usize>)
        ensures
            r@ == forbidden_cells(board@),
    {
        forbidden_points(board)
    }
}

} // verus!
