use vstd::prelude::*;
use crate::vcf::model::{BOARD_CELLS, BOARD_SIZE};

verus! {

/// An empty cell.
pub const EMPTY: u8 = 0;

/// A black stone.
pub const BLACK: u8 = 1;

/// A white stone.
pub const WHITE: u8 = 2;

/// The kinds of forbidden moves of Black.
#[derive(Clone, Copy, Debug, PartialEq, Eq, Structural)]
pub enum BlackForbiddenKind {
    Overline,
    DoubleFour,
    DoubleThree,
}

/// The name of a kind, as shown to users.
pub open spec fn kind_name(k: BlackForbiddenKind) -> Seq<char> {
    match k {
        BlackForbiddenKind::Overline => seq!['o', 'v', 'e', 'r', 'l', 'i', 'n', 'e'],
        BlackForbiddenKind::DoubleFour => seq!['d', 'o', 'u', 'b', 'l', 'e', '-', 'f', 'o', 'u', 'r'],
        BlackForbiddenKind::DoubleThree => seq![
            'd', 'o', 'u', 'b', 'l', 'e', '-', 't', 'h', 'r', 'e', 'e',
        ],
    }
}

impl BlackForbiddenKind {
    /// "overline", "double-four" or "double-three".
    pub fn as_str(self) -> (s: &'static str)
        ensures
            s@ == kind_name(self),
    {
        match self {
            BlackForbiddenKind::Overline => {
                proof {
                    reveal_strlit("overline");
                }
                "overline"
            },
            BlackForbiddenKind::DoubleFour => {
                proof {
                    reveal_strlit("double-four");
                }
                "double-four"
            },
            BlackForbiddenKind::DoubleThree => {
                proof {
                    reveal_strlit("double-three");
                }
                "double-three"
            },
        }
    }
}

// ---------------------------------------------------------------------------
// The rules, stated over the cells of a board (row-major, 225 cells).
/// The four line directions: horizontal, vertical and the two diagonals.
pub open spec fn dir(d: int) -> (int, int) {
    if d == 0 {
        (1, 0)
    } else if d == 1 {
        (0, 1)
    } else if d == 2 {
        (1, 1)
    } else {
        (1, -1)
    }
}

/// Whether (x, y) is on the board.
pub open spec fn on_board(x: int, y: int) -> bool {
    0 <= x < 15 && 0 <= y < 15
}

/// Cell index of (x, y).
pub open spec fn cell(x: int, y: int) -> int {
    y * 15 + x
}

/// Whether (x, y) is on the board and holds a black stone.
pub open spec fn black_at(b: Seq<u8>, x: int, y: int) -> bool {
    on_board(x, y) && b[cell(x, y)] == BLACK
}

/// Number of black stones that follow (x, y) without a gap in direction
/// (dx, dy), counting from `step` steps away.
pub open spec fn run(b: Seq<u8>, x: int, y: int, dx: int, dy: int, step: int) -> int
    decreases 16 - step,
{
    if step <= 15 && black_at(b, x + dx * step, y + dy * step) {
        1 + run(b, x, y, dx, dy, step + 1)
    } else {
        0
    }
}

/// Length of the black line through (x, y) in direction `d`, counting (x, y)
/// itself whatever it holds.
pub open spec fn line_count(b: Seq<u8>, x: int, y: int, d: int) -> int {
    1 + run(b, x, y, dir(d).0, dir(d).1, 1) + run(b, x, y, -dir(d).0, -dir(d).1, 1)
}

/// Whether (x, y) lies on a line of exactly five black stones.
pub open spec fn five_at(b: Seq<u8>, x: int, y: int) -> bool {
    exists|d: int| 0 <= d < 4 && #[trigger] line_count(b, x, y, d) == 5
}

/// Whether some line through (x, y) has six or more black stones.
pub open spec fn overline_at(b: Seq<u8>, x: int, y: int) -> bool {
    exists|d: int| 0 <= d < 4 && #[trigger] line_count(b, x, y, d) >= 6
}

/// Whether (dx, dy) is one of the eight unit steps.
pub open spec fn unit_step(dx: int, dy: int) -> bool {
    -1 <= dx <= 1 && -1 <= dy <= 1 && (dx != 0 || dy != 0)
}

/// State of the scan of a five-cell window: whether it met the edge or a
/// white stone, the stones and gaps counted, and the last gap seen.
pub struct WindowScan {
    pub blocked: bool,
    pub stones: int,
    pub empties: int,
    pub gap: int,
}

/// Scan of the first `k` cells of the window that starts `s` steps from
/// (x, y) in direction (dx, dy); (x, y) itself counts as a stone, and the scan
/// stops at the first cell off the board or not black and not empty.
pub open spec fn window_scan(b: Seq<u8>, x: int, y: int, dx: int, dy: int, s: int, k: int) -> WindowScan
    decreases k,
{
    if k <= 0 {
        WindowScan { blocked: false, stones: 0, empties: 0, gap: -1 }
    } else {
        let p = window_scan(b, x, y, dx, dy, s, k - 1);
        let pos = s + k - 1;
        let (cx, cy) = (x + pos * dx, y + pos * dy);
        if p.blocked {
            p
        } else if pos == 0 {
            WindowScan { stones: p.stones + 1, ..p }
        } else if !on_board(cx, cy) {
            WindowScan { blocked: true, ..p }
        } else if b[cell(cx, cy)] == BLACK {
            WindowScan { stones: p.stones + 1, ..p }
        } else if b[cell(cx, cy)] == EMPTY {
            WindowScan { empties: p.empties + 1, gap: cell(cx, cy), ..p }
        } else {
            WindowScan { blocked: true, ..p }
        }
    }
}

/// The gap of the window that starts `s` steps from (x, y) in direction `d`,
/// when that window holds four stones (counting (x, y)) and one gap.
pub open spec fn four_gap(b: Seq<u8>, x: int, y: int, d: int, s: int) -> Option<int> {
    let w = window_scan(b, x, y, dir(d).0, dir(d).1, s, 5);
    if !w.blocked && w.stones == 4 && w.empties == 1 {
        Some(w.gap)
    } else {
        None
    }
}

/// Whether filling `gap` with a black stone makes no line longer than five
/// in direction `d` (an overline four does not count).
pub open spec fn gap_ok(b: Seq<u8>, gap: int, d: int) -> bool {
    line_count(b.update(gap, BLACK), gap % 15, gap / 15, d) <= 5
}

/// The distinct gaps that make fours through (x, y) in direction `d`, over
/// the first `n` windows (window `i` starts `i - 4` steps from (x, y)).
pub open spec fn four_spots(b: Seq<u8>, x: int, y: int, d: int, n: int) -> Seq<int>
    decreases n,
{
    if n <= 0 {
        Seq::empty()
    } else {
        let prev = four_spots(b, x, y, d, n - 1);
        match four_gap(b, x, y, d, n - 5) {
            Some(g) => if !prev.contains(g) && gap_ok(b, g, d) {
                prev.push(g)
            } else {
                prev
            },
            None => prev,
        }
    }
}

/// Number of different fours through (x, y) in direction `d`.
pub open spec fn four_count(b: Seq<u8>, x: int, y: int, d: int) -> int {
    four_spots(b, x, y, d, 5).len() as int
}

/// The fours through (x, y) in direction `d` as the forbidden-move rule counts
/// them: several fours on one line of exactly four stones count once.
pub open spec fn fours_in_dir(b: Seq<u8>, x: int, y: int, d: int) -> int {
    if line_count(b, x, y, d) == 4 && four_count(b, x, y, d) > 1 {
        1
    } else {
        four_count(b, x, y, d)
    }
}

/// Cell `j` (0..11) of the line of eleven cells centred on (x, y) in
/// direction (dx, dy): the centre counts as black, cells off the board or
/// neither black nor empty count as white.
pub open spec fn line_cell(b: Seq<u8>, x: int, y: int, dx: int, dy: int, j: int) -> u8 {
    let k = j - 5;
    if k == 0 {
        BLACK
    } else if !on_board(x + k * dx, y + k * dy) {
        WHITE
    } else if b[cell(x + k * dx, y + k * dy)] == BLACK {
        BLACK
    } else if b[cell(x + k * dx, y + k * dy)] == EMPTY {
        EMPTY
    } else {
        WHITE
    }
}

/// Number of cells equal to `v` among line cells `lo .. hi`.
pub open spec fn line_count_of(b: Seq<u8>, x: int, y: int, dx: int, dy: int, lo: int, hi: int, v: u8) -> int
    decreases hi - lo,
{
    if hi <= lo {
        0
    } else {
        line_count_of(b, x, y, dx, dy, lo, hi - 1, v) + if line_cell(b, x, y, dx, dy, hi - 1) == v {
            1int
        } else {
            0int
        }
    }
}

/// Whether the window of line cells `start .. start + 5` is a three: three
/// stones and two gaps, and no stone right before or after it.
pub open spec fn three_window(b: Seq<u8>, x: int, y: int, dx: int, dy: int, start: int) -> bool {
    &&& line_count_of(b, x, y, dx, dy, start, start + 5, BLACK) == 3
    &&& line_count_of(b, x, y, dx, dy, start, start + 5, EMPTY) == 2
    &&& line_cell(b, x, y, dx, dy, start - 1) != BLACK
    &&& (start + 5 < 11 ==> line_cell(b, x, y, dx, dy, start + 5) != BLACK)
}

/// Whether candidate `n` (window `1 + n / 5`, offset `n % 5`) is a gap of a
/// three next to one of its stones.
pub open spec fn vital_candidate(b: Seq<u8>, x: int, y: int, dx: int, dy: int, n: int) -> bool {
    let start = 1 + n / 5;
    let j = start + n % 5;
    &&& three_window(b, x, y, dx, dy, start)
    &&& line_cell(b, x, y, dx, dy, j) == EMPTY
    &&& ((n % 5 > 0 && line_cell(b, x, y, dx, dy, j - 1) == BLACK) || (n % 5 + 1 < 5 && line_cell(
        b,
        x,
        y,
        dx,
        dy,
        j + 1,
    ) == BLACK))
}

/// The distinct cells, in order of discovery, among the first `n` candidates
/// where a stone would turn a three through (x, y) into a four.
pub open spec fn vital_points_upto(b: Seq<u8>, x: int, y: int, dx: int, dy: int, n: int) -> Seq<int>
    decreases n,
{
    if n <= 0 {
        Seq::empty()
    } else {
        let prev = vital_points_upto(b, x, y, dx, dy, n - 1);
        let m = n - 1;
        let k = 1 + m / 5 + m % 5 - 5;
        let c = cell(x + k * dx, y + k * dy);
        if vital_candidate(b, x, y, dx, dy, m) && !prev.contains(c) {
            prev.push(c)
        } else {
            prev
        }
    }
}

/// The vital points of the threes through (x, y) in direction `d`.
pub open spec fn vital_points(b: Seq<u8>, x: int, y: int, d: int) -> Seq<int> {
    vital_points_upto(b, x, y, dir(d).0, dir(d).1, 30)
}

/// Whether a black stone on the empty cell `k` steps from (x, y) in
/// direction `d` would make exactly five.
pub open spec fn can_win_at(b: Seq<u8>, x: int, y: int, d: int, k: int) -> bool {
    let (tx, ty) = (x + k * dir(d).0, y + k * dir(d).1);
    on_board(tx, ty) && b[cell(tx, ty)] == EMPTY && five_at(b.update(cell(tx, ty), BLACK), tx, ty)
}

/// Whether the cell `k` steps from (x, y) in direction `d` holds `v` ((x, y)
/// itself always matches).
pub open spec fn holds_at(b: Seq<u8>, x: int, y: int, d: int, k: int, v: u8) -> bool {
    k == 0 || (on_board(x + k * dir(d).0, y + k * dir(d).1) && b[cell(x + k * dir(d).0, y + k * dir(d).1)]
        == v)
}

/// Whether the window of four cells after the cell `s` steps from (x, y) in
/// direction `d` is black, with an empty cell on either side where a black
/// stone makes exactly five.
pub open spec fn open_four_at(b: Seq<u8>, x: int, y: int, d: int, s: int) -> bool {
    &&& holds_at(b, x, y, d, s, EMPTY)
    &&& holds_at(b, x, y, d, s + 5, EMPTY)
    &&& forall|k: int| 1 <= k <= 4 ==> #[trigger] holds_at(b, x, y, d, s + k, BLACK)
    &&& can_win_at(b, x, y, d, s)
    &&& can_win_at(b, x, y, d, s + 5)
}

/// Whether the stone at `idx` is part of an open four.
pub open spec fn straight_four(b: Seq<u8>, idx: int) -> bool {
    exists|d: int, s: int| 0 <= d < 4 && -4 <= s <= 0 && #[trigger] open_four_at(b, idx % 15, idx / 15, d, s)
}

/// Sum of the fours counted in the directions before `d`.
pub open spec fn fours_sum(b: Seq<u8>, x: int, y: int, d: int) -> int
    decreases d,
{
    if d <= 0 {
        0
    } else {
        fours_sum(b, x, y, d - 1) + fours_in_dir(b, x, y, d - 1)
    }
}

/// Number of directions before `d` with a real three through `idx`.
pub open spec fn threes_sum(b: Seq<u8>, idx: int, d: int, depth: int) -> int
    decreases d,
{
    if d <= 0 {
        0
    } else {
        threes_sum(b, idx, d - 1, depth) + if real_three(b, idx, d - 1, depth) {
            1int
        } else {
            0int
        }
    }
}

/// Deepest nesting of three checks; past it a double three is assumed.
pub open spec fn max_forbidden_recursion() -> int {
    225
}

/// Whether the three through `idx` in direction `d` is real: a stone on one
/// of its vital points makes an open four and is not itself forbidden.
pub open spec fn real_three(b: Seq<u8>, idx: int, d: int, depth: int) -> bool
    decreases max_forbidden_recursion() - depth, 2int, 0int,
{
    vital_any(b, vital_points(b, idx % 15, idx / 15, d), 0, depth)
}

/// Whether some vital point of `vs` from position `k` on is good.
pub open spec fn vital_any(b: Seq<u8>, vs: Seq<int>, k: int, depth: int) -> bool
    decreases max_forbidden_recursion() - depth, 1int, vs.len() - k,
{
    if k < 0 || k >= vs.len() {
        false
    } else {
        vital_ok(b, vs[k], depth) || vital_any(b, vs, k + 1, depth)
    }
}

/// Whether a black stone on vital point `v` makes a legal open four.
pub open spec fn vital_ok(b: Seq<u8>, v: int, depth: int) -> bool
    decreases max_forbidden_recursion() - depth, 0int, 0int,
{
    if depth >= max_forbidden_recursion() || !(0 <= v < 225) {
        false
    } else {
        forbidden_at(b.update(v, BLACK), v, true, depth + 1) is None && straight_four(b.update(v, BLACK), v)
    }
}

/// The forbidden-move verdict for the black stone at `idx`: an overline, two
/// or more fours, or (when threes are checked) two or more real threes.
pub open spec fn forbidden_at(b: Seq<u8>, idx: int, check_three: bool, depth: int) -> Option<BlackForbiddenKind>
    decreases max_forbidden_recursion() - depth, 3int, 0int,
{
    let (x, y) = (idx % 15, idx / 15);
    if overline_at(b, x, y) {
        Some(BlackForbiddenKind::Overline)
    } else if fours_in_dir(b, x, y, 0) + fours_in_dir(b, x, y, 1) + fours_in_dir(b, x, y, 2) + fours_in_dir(
        b,
        x,
        y,
        3,
    ) >= 2 {
        Some(BlackForbiddenKind::DoubleFour)
    } else if !check_three {
        None
    } else if depth >= max_forbidden_recursion() {
        Some(BlackForbiddenKind::DoubleThree)
    } else if (if real_three(b, idx, 0, depth) { 1int } else { 0int }) + (if real_three(b, idx, 1, depth) {
        1int
    } else {
        0int
    }) + (if real_three(b, idx, 2, depth) { 1int } else { 0int }) + (if real_three(b, idx, 3, depth) {
        1int
    } else {
        0int
    }) >= 2 {
        Some(BlackForbiddenKind::DoubleThree)
    } else {
        None
    }
}

/// The verdict for a black stone on the empty cell `idx`: none off the board,
/// on an occupied cell, or where the stone makes exactly five.
pub open spec fn forbidden_move(b: Seq<u8>, idx: int) -> Option<BlackForbiddenKind> {
    if !(0 <= idx < 225) || b[idx] != EMPTY {
        None
    } else if five_at(b.update(idx, BLACK), idx % 15, idx / 15) {
        None
    } else {
        forbidden_at(b.update(idx, BLACK), idx, true, 0)
    }
}

/// The verdict for the black stone already on `idx`: none off the board or
/// where there is no black stone.
pub open spec fn placed_verdict(b: Seq<u8>, idx: int, check_three: bool) -> Option<BlackForbiddenKind> {
    if !(0 <= idx < 225) || b[idx] != BLACK {
        None
    } else {
        forbidden_at(b, idx, check_three, 0)
    }
}

/// The forbidden cells of Black, in increasing order.
pub open spec fn forbidden_cells(b: Seq<u8>) -> Seq<usize> {
    Seq::new(225, |i: int| i as usize).filter(|i: usize| forbidden_move(b, i as int) is Some)
}

proof fn lemma_cells_filter(b: Seq<u8>, n: int)
    requires
        0 <= n <= 225,
    ensures
        ({
            let r = Seq::new(225, |i: int| i as usize).take(n).filter(|i: usize| forbidden_move(b, i as int) is Some);
            &&& forall|j: int, k: int| 0 <= j < k < r.len() ==> #[trigger] r[j] < #[trigger] r[k]
            &&& forall|j: int| 0 <= j < r.len() ==> #[trigger] r[j] < n
            &&& forall|i: int| 0 <= i < n ==> (r.contains(i as usize) <==> forbidden_move(b, i) is Some)
        }),
    decreases n,
{
    let all = Seq::new(225, |i: int| i as usize);
    let f = |i: usize| forbidden_move(b, i as int) is Some;
    if n > 0 {
        lemma_cells_filter(b, n - 1);
        assert(all.take(n) =~= all.take(n - 1).push((n - 1) as usize));
        all.take(n - 1).lemma_filter_push((n - 1) as usize, f);
        let r0 = all.take(n - 1).filter(f);
        let r = all.take(n).filter(f);
        assert(r == (if f((n - 1) as usize) { r0.push((n - 1) as usize) } else { r0 }));
        assert forall|i: int| 0 <= i < n implies (r.contains(i as usize) <==> forbidden_move(b, i) is Some) by {
            if i < n - 1 {
                if r.contains(i as usize) && !r0.contains(i as usize) {
                    let k = choose|k: int| 0 <= k < r.len() && r[k] == i as usize;
                    assert(k == r0.len());
                }
                if r0.contains(i as usize) {
                    let k = choose|k: int| 0 <= k < r0.len() && r0[k] == i as usize;
                    assert(r[k] == i as usize);
                }
            } else {
                if f((n - 1) as usize) {
                    assert(r[r.len() - 1] == i as usize);
                } else if r.contains(i as usize) {
                    let k = choose|k: int| 0 <= k < r.len() && r[k] == i as usize;
                    assert(r0[k] < n - 1);
                }
            }
        }
    } else {
        assert(all.take(0).filter(f) =~= Seq::<usize>::empty());
    }
}

/// The forbidden cells come in increasing order, and a cell is among them
/// exactly when Black's stone there would be a forbidden move.
pub proof fn lemma_forbidden_cells_ordered(b: Seq<u8>)
    ensures
        forall|j: int, k: int| 0 <= j < k < forbidden_cells(b).len() ==> #[trigger] forbidden_cells(b)[j] < #[trigger] forbidden_cells(b)[k],
        forall|i: int| 0 <= i < 225 ==> (forbidden_cells(b).contains(i as usize) <==> forbidden_move(b, i) is Some),
        forall|j: int| 0 <= j < forbidden_cells(b).len() ==> #[trigger] forbidden_cells(b)[j] < 225,
{
    lemma_cells_filter(b, 225);
    let all = Seq::new(225, |i: int| i as usize);
    assert(all.take(225) =~= all);
}

// ---------------------------------------------------------------------------
// Board geometry.
/// Column and row of a cell index.
pub fn xy(idx: usize) -> (r: (usize, usize))
    ensures
        r.0 == idx % 15,
        r.1 == idx / 15,
{
    (idx % BOARD_SIZE, idx / BOARD_SIZE)
}

/// Cell index of (x, y), if it is on the board.
pub fn index(x: isize, y: isize) -> (r: Option<usize>)
    ensures
        r == (if on_board(x as int, y as int) {
            Some(cell(x as int, y as int) as usize)
        } else {
            None::<usize>
        }),
{
    if x >= 0 && x < BOARD_SIZE as isize && y >= 0 && y < BOARD_SIZE as isize {
        Some(y as usize * BOARD_SIZE + x as usize)
    } else {
        None
    }
}

fn dir_of(d: usize) -> (r: (isize, isize))
    requires
        d < 4,
    ensures
        r.0 == dir(d as int).0,
        r.1 == dir(d as int).1,
        unit_step(r.0 as int, r.1 as int),
{
    if d == 0 {
        (1, 0)
    } else if d == 1 {
        (0, 1)
    } else if d == 2 {
        (1, 1)
    } else {
        (1, -1)
    }
}

/// From a cell of the board, a unit step can be taken at most 14 times
/// without leaving it.
proof fn lemma_steps_on_board(x: int, y: int, dx: int, dy: int, s: int)
    requires
        on_board(x, y),
        unit_step(dx, dy),
        s >= 1,
        on_board(x + dx * s, y + dy * s),
    ensures
        s <= 14,
{
    lemma_unit_mul(dx, s);
    lemma_unit_mul(dy, s);
}

/// A unit factor multiplies as a sign.
proof fn lemma_unit_mul(d: int, s: int)
    requires
        -1 <= d <= 1,
    ensures
        d * s == (if d == 1 {
            s
        } else if d == -1 {
            -s
        } else {
            0
        }),
{
    if d == 1 {
    } else if d == -1 {
        assert(d * s == -s) by (nonlinear_arith)
            requires
                d == -1,
        ;
    } else {
    }
}

struct BlackForbiddenMove {
    board: [u8; 225],
}

impl BlackForbiddenMove {
    fn new(board: [u8; 225]) -> (r: Self)
        ensures
            r.board@ == board@,
    {
        Self { board }
    }

    /// Black stones that follow (x, y) without a gap in direction (dx, dy).
    fn run_len(&self, x: usize, y: usize, dx: isize, dy: isize) -> (r: usize)
        requires
            on_board(x as int, y as int),
            unit_step(dx as int, dy as int),
        ensures
            r == run(self.board@, x as int, y as int, dx as int, dy as int, 1),
            r <= 14,
    {
        let ghost b = self.board@;
        let mut step: isize = 1;
        let mut count: usize = 0;
        loop
            invariant
                b == self.board@,
                on_board(x as int, y as int),
                unit_step(dx as int, dy as int),
                1 <= step <= 15,
                count == step - 1,
                count + run(b, x as int, y as int, dx as int, dy as int, step as int) == run(
                    b,
                    x as int,
                    y as int,
                    dx as int,
                    dy as int,
                    1,
                ),
            decreases 15 - step,
        {
            proof {
                lemma_unit_mul(dx as int, step as int);
                lemma_unit_mul(dy as int, step as int);
            }
            let cx = x as isize + dx * step;
            let cy = y as isize + dy * step;
            match index(cx, cy) {
                Some(idx) => {
                    if self.board[idx] != BLACK {
                        return count;
                    }
                    proof {
                        lemma_steps_on_board(x as int, y as int, dx as int, dy as int, step as int);
                    }
                    count += 1;
                    step += 1;
                },
                None => {
                    return count;
                },
            }
        }
    }

    /// Length of the black line through (x, y) in direction `d`.
    fn line_count(&self, x: usize, y: usize, d: usize) -> (r: usize)
        requires
            on_board(x as int, y as int),
            d < 4,
        ensures
            r == line_count(self.board@, x as int, y as int, d as int),
    {
        let (dx, dy) = dir_of(d);
        let back = self.run_len(x, y, -dx, -dy);
        let fwd = self.run_len(x, y, dx, dy);
        1 + back + fwd
    }

    /// Whether (x, y) is on a line of exactly five.
    fn check_win(&self, x: usize, y: usize) -> (r: bool)
        requires
            on_board(x as int, y as int),
        ensures
            r == five_at(self.board@, x as int, y as int),
    {
        let mut d: usize = 0;
        while d < 4
            invariant
                on_board(x as int, y as int),
                d <= 4,
                forall|e: int| 0 <= e < d ==> #[trigger] line_count(self.board@, x as int, y as int, e) != 5,
            decreases 4 - d,
        {
            if self.line_count(x, y, d) == 5 {
                return true;
            }
            d += 1;
        }
        false
    }

    /// Whether some line through (x, y) has six or more stones.
    fn has_overline(&self, x: usize, y: usize) -> (r: bool)
        requires
            on_board(x as int, y as int),
        ensures
            r == overline_at(self.board@, x as int, y as int),
    {
        let mut d: usize = 0;
        while d < 4
            invariant
                on_board(x as int, y as int),
                d <= 4,
                forall|e: int| 0 <= e < d ==> #[trigger] line_count(self.board@, x as int, y as int, e) < 6,
            decreases 4 - d,
        {
            if self.line_count(x, y, d) >= 6 {
                return true;
            }
            d += 1;
        }
        false
    }

    /// The window that starts `start` steps from (x, y) in direction `d`.
    fn scan_window(&self, x: usize, y: usize, d: usize, start: isize) -> (r: (bool, usize, usize, usize))
        requires
            on_board(x as int, y as int),
            d < 4,
            -4 <= start <= 0,
        ensures
            ({
                let w = window_scan(self.board@, x as int, y as int, dir(d as int).0, dir(d as int).1, start as int, 5);
                &&& r.0 == w.blocked
                &&& r.1 == w.stones
                &&& r.2 == w.empties
                &&& (w.empties > 0 ==> r.3 == w.gap && 0 <= w.gap < 225 && self.board@[w.gap] == EMPTY)
            }),
    {
        let ghost b = self.board@;
        let (dx, dy) = dir_of(d);
        let mut stones: usize = 0;
        let mut empties: usize = 0;
        let mut gap: usize = 0;
        let mut k: isize = 0;
        while k < 5
            invariant
                b == self.board@,
                on_board(x as int, y as int),
                d < 4,
                dx == dir(d as int).0,
                dy == dir(d as int).1,
                -4 <= start <= 0,
                0 <= k <= 5,
                ({
                    let w = window_scan(b, x as int, y as int, dx as int, dy as int, start as int, k as int);
                    &&& !w.blocked
                    &&& stones == w.stones
                    &&& empties == w.empties
                    &&& stones + empties <= k
                    &&& (w.empties > 0 ==> gap == w.gap && 0 <= w.gap < 225 && b[w.gap] == EMPTY)
                }),
            decreases 5 - k,
        {
            let pos = start + k;
            proof {
                lemma_unit_mul(dx as int, pos as int);
                lemma_unit_mul(dy as int, pos as int);
            }
            if pos == 0 {
                stones += 1;
            } else {
                match index(x as isize + pos * dx, y as isize + pos * dy) {
                    None => {
                        proof {
                            let w = window_scan(b, x as int, y as int, dx as int, dy as int, start as int, 5);
                            lemma_window_blocked_stays(b, x as int, y as int, dx as int, dy as int, start as int, k + 1);
                        }
                        return (true, stones, empties, gap);
                    },
                    Some(idx) => {
                        if self.board[idx] == BLACK {
                            stones += 1;
                        } else if self.board[idx] == EMPTY {
                            empties += 1;
                            gap = idx;
                        } else {
                            proof {
                                lemma_window_blocked_stays(b, x as int, y as int, dx as int, dy as int, start as int, k + 1);
                            }
                            return (true, stones, empties, gap);
                        }
                    },
                }
            }
            k += 1;
        }
        (false, stones, empties, gap)
    }

    fn contains_cell(v: &Vec<usize>, c: usize) -> (r: bool)
        ensures
            r == (exists|i: int| 0 <= i < v@.len() && v@[i] == c),
    {
        let mut i: usize = 0;
        while i < v.len()
            invariant
                i <= v@.len(),
                forall|j: int| 0 <= j < i ==> v@[j] != c,
            decreases v@.len() - i,
        {
            if v[i] == c {
                return true;
            }
            i += 1;
        }
        false
    }

    /// Number of different fours through the stone at (x, y) in direction `d`.
    fn four_patterns(&mut self, x: usize, y: usize, d: usize) -> (r: usize)
        requires
            on_board(x as int, y as int),
            d < 4,
        ensures
            final(self).board@ == old(self).board@,
            r == four_count(old(self).board@, x as int, y as int, d as int),
    {
        let ghost b = self.board@;
        let mut spots: Vec<usize> = Vec::new();
        let mut n: usize = 0;
        while n < 5
            invariant
                b == self.board@,
                on_board(x as int, y as int),
                d < 4,
                n <= 5,
                spots@.len() == four_spots(b, x as int, y as int, d as int, n as int).len(),
                forall|i: int| 0 <= i < spots@.len() ==> spots@[i] as int == #[trigger] four_spots(
                    b,
                    x as int,
                    y as int,
                    d as int,
                    n as int,
                )[i],
            decreases 5 - n,
        {
            let start = n as isize - 4;
            let ghost prev = four_spots(b, x as int, y as int, d as int, n as int);
            let (blocked, stones, empties, gap) = self.scan_window(x, y, d, start);
            if !blocked && stones == 4 && empties == 1 {
                let seen = Self::contains_cell(&spots, gap);
                proof {
                    assert(seen == prev.contains(gap as int)) by {
                        if seen {
                            let i = choose|i: int| 0 <= i < spots@.len() && spots@[i] == gap;
                            assert(prev[i] == gap as int);
                        }
                        if prev.contains(gap as int) {
                            let i = choose|i: int| 0 <= i < prev.len() && prev[i] == gap as int;
                            assert(spots@[i] as int == prev[i]);
                        }
                    }
                }
                if !seen {
                    let (gx, gy) = xy(gap);
                    self.board[gap] = BLACK;
                    let count = self.line_count(gx, gy, d);
                    self.board[gap] = EMPTY;
                    proof {
                        assert(self.board@ =~= b);
                    }
                    if count <= 5 {
                        spots.push(gap);
                    }
                }
            }
            n += 1;
        }
        spots.len()
    }

    /// The line of eleven cells centred on (x, y) in direction `d`.
    fn line_cells(&self, x: usize, y: usize, d: usize) -> (line: Vec<u8>)
        requires
            on_board(x as int, y as int),
            d < 4,
        ensures
            line@.len() == 11,
            forall|j: int| 0 <= j < 11 ==> #[trigger] line@[j] == line_cell(
                self.board@,
                x as int,
                y as int,
                dir(d as int).0,
                dir(d as int).1,
                j,
            ),
    {
        let (dx, dy) = dir_of(d);
        let mut line: Vec<u8> = Vec::new();
        let mut j: isize = 0;
        while j < 11
            invariant
                on_board(x as int, y as int),
                d < 4,
                dx == dir(d as int).0,
                dy == dir(d as int).1,
                0 <= j <= 11,
                line@.len() == j,
                forall|i: int| 0 <= i < j ==> #[trigger] line@[i] == line_cell(
                    self.board@,
                    x as int,
                    y as int,
                    dx as int,
                    dy as int,
                    i,
                ),
            decreases 11 - j,
        {
            let k = j - 5;
            proof {
                lemma_unit_mul(dx as int, k as int);
                lemma_unit_mul(dy as int, k as int);
            }
            let v = if k == 0 {
                BLACK
            } else {
                match index(x as isize + k * dx, y as isize + k * dy) {
                    Some(idx) => {
                        if self.board[idx] == BLACK {
                            BLACK
                        } else if self.board[idx] == EMPTY {
                            EMPTY
                        } else {
                            WHITE
                        }
                    },
                    None => WHITE,
                }
            };
            line.push(v);
            j += 1;
        }
        line
    }

    fn count_in(line: &Vec<u8>, lo: usize, hi: usize, v: u8, Ghost(b): Ghost<Seq<u8>>, Ghost(x): Ghost<int>, Ghost(y): Ghost<int>, Ghost(dx): Ghost<int>, Ghost(dy): Ghost<int>) -> (r: usize)
        requires
            lo <= hi <= 11,
            line@.len() == 11,
            forall|j: int| 0 <= j < 11 ==> #[trigger] line@[j] == line_cell(b, x, y, dx, dy, j),
        ensures
            r == line_count_of(b, x, y, dx, dy, lo as int, hi as int, v),
    {
        let mut c: usize = 0;
        let mut j = lo;
        while j < hi
            invariant
                lo <= j <= hi <= 11,
                line@.len() == 11,
                forall|i: int| 0 <= i < 11 ==> #[trigger] line@[i] == line_cell(b, x, y, dx, dy, i),
                c == line_count_of(b, x, y, dx, dy, lo as int, j as int, v),
                c <= j - lo,
            decreases hi - j,
        {
            if line[j] == v {
                c += 1;
            }
            j += 1;
        }
        c
    }

    /// Vital points of the threes through (x, y) in direction `d`.
    #[verifier::spinoff_prover]
    #[verifier::rlimit(40)]
    fn three_vital_points(&self, x: usize, y: usize, d: usize) -> (points: Vec<usize>)
        requires
            on_board(x as int, y as int),
            d < 4,
        ensures
            points@.len() == vital_points(self.board@, x as int, y as int, d as int).len(),
            forall|i: int| 0 <= i < points@.len() ==> points@[i] as int == #[trigger] vital_points(
                self.board@,
                x as int,
                y as int,
                d as int,
            )[i],
    {
        let ghost b = self.board@;
        let (dx, dy) = dir_of(d);
        let ghost (gdx, gdy) = (dx as int, dy as int);
        let line = self.line_cells(x, y, d);
        let mut points: Vec<usize> = Vec::new();
        let mut start: usize = 1;
        while start <= 6
            invariant
                b == self.board@,
                on_board(x as int, y as int),
                d < 4,
                dx == dir(d as int).0,
                dy == dir(d as int).1,
                gdx == dx,
                gdy == dy,
                1 <= start <= 7,
                line@.len() == 11,
                forall|j: int| 0 <= j < 11 ==> #[trigger] line@[j] == line_cell(b, x as int, y as int, gdx, gdy, j),
                points@.len() == vital_points_upto(b, x as int, y as int, gdx, gdy, (start - 1) * 5).len(),
                forall|i: int| 0 <= i < points@.len() ==> points@[i] as int == #[trigger] vital_points_upto(
                    b,
                    x as int,
                    y as int,
                    gdx,
                    gdy,
                    (start - 1) * 5,
                )[i],
            decreases 7 - start,
        {
            let blacks = Self::count_in(&line, start, start + 5, BLACK, Ghost(b), Ghost(x as int), Ghost(y as int), Ghost(gdx), Ghost(gdy));
            let empties = Self::count_in(&line, start, start + 5, EMPTY, Ghost(b), Ghost(x as int), Ghost(y as int), Ghost(gdx), Ghost(gdy));
            let three = blacks == 3 && empties == 2 && line[start - 1] != BLACK && !(start + 5 < 11
                && line[start + 5] == BLACK);
            assert(three == three_window(b, x as int, y as int, gdx, gdy, start as int));
            let mut offset: usize = 0;
            while offset < 5
                invariant
                    b == self.board@,
                    on_board(x as int, y as int),
                    dx == gdx,
                    dy == gdy,
                    unit_step(gdx, gdy),
                    1 <= start <= 6,
                    offset <= 5,
                    line@.len() == 11,
                    forall|j: int| 0 <= j < 11 ==> #[trigger] line@[j] == line_cell(b, x as int, y as int, gdx, gdy, j),
                    three == three_window(b, x as int, y as int, gdx, gdy, start as int),
                    points@.len() == vital_points_upto(b, x as int, y as int, gdx, gdy, (start - 1) * 5 + offset).len(),
                    forall|i: int| 0 <= i < points@.len() ==> points@[i] as int == #[trigger] vital_points_upto(
                        b,
                        x as int,
                        y as int,
                        gdx,
                        gdy,
                        (start - 1) * 5 + offset,
                    )[i],
                decreases 5 - offset,
            {
                let j = start + offset;
                let ghost m = (start - 1) * 5 + offset;
                let ghost prev = vital_points_upto(b, x as int, y as int, gdx, gdy, m);
                proof {
                    lemma_div5(start as int, offset as int);
                }
                let cand = three && line[j] == EMPTY && ((offset > 0 && line[j - 1] == BLACK) || (offset + 1 < 5
                    && line[j + 1] == BLACK));
                assert(cand == vital_candidate(b, x as int, y as int, gdx, gdy, m));
                if cand {
                    let k = j as isize - 5;
                    proof {
                        lemma_unit_mul(gdx, k as int);
                        lemma_unit_mul(gdy, k as int);
                    }
                    let c = index(x as isize + k * dx, y as isize + k * dy);
                    let c = c.unwrap();
                    let seen = Self::contains_cell(&points, c);
                    proof {
                        assert(seen == prev.contains(c as int)) by {
                            if seen {
                                let i = choose|i: int| 0 <= i < points@.len() && points@[i] == c;
                                assert(prev[i] == c as int);
                            }
                            if prev.contains(c as int) {
                                let i = choose|i: int| 0 <= i < prev.len() && prev[i] == c as int;
                                assert(points@[i] as int == prev[i]);
                            }
                        }
                    }
                    if !seen {
                        points.push(c);
                    }
                }
                offset += 1;
            }
            start += 1;
        }
        points
    }

    /// Whether (x, y) plus `k` steps in direction `d` holds `expected`.
    fn is_value(&self, x: usize, y: usize, d: usize, k: isize, expected: u8) -> (r: bool)
        requires
            on_board(x as int, y as int),
            d < 4,
            -5 <= k <= 5,
        ensures
            r == holds_at(self.board@, x as int, y as int, d as int, k as int, expected),
    {
        if k == 0 {
            return true;
        }
        let (dx, dy) = dir_of(d);
        proof {
            lemma_unit_mul(dx as int, k as int);
            lemma_unit_mul(dy as int, k as int);
        }
        match index(x as isize + k * dx, y as isize + k * dy) {
            Some(idx) => self.board[idx] == expected,
            None => false,
        }
    }

    /// Whether a black stone `k` steps from (x, y) in direction `d` would make
    /// exactly five there.
    #[verifier::spinoff_prover]
    fn can_win_at(&mut self, x: usize, y: usize, d: usize, k: isize) -> (r: bool)
        requires
            on_board(x as int, y as int),
            d < 4,
            -5 <= k <= 5,
        ensures
            final(self).board@ == old(self).board@,
            r == can_win_at(old(self).board@, x as int, y as int, d as int, k as int),
    {
        let ghost b = self.board@;
        let (dx, dy) = dir_of(d);
        proof {
            lemma_unit_mul(dx as int, k as int);
            lemma_unit_mul(dy as int, k as int);
        }
        let idx = match index(x as isize + k * dx, y as isize + k * dy) {
            Some(idx) => idx,
            None => {
                return false;
            },
        };
        if self.board[idx] != EMPTY {
            return false;
        }
        let (tx, ty) = xy(idx);
        self.board[idx] = BLACK;
        let wins = self.check_win(tx, ty);
        self.board[idx] = EMPTY;
        proof {
            assert(self.board@ =~= b);
        }
        wins
    }

    fn open_four(&mut self, x: usize, y: usize, d: usize, start: isize) -> (r: bool)
        requires
            on_board(x as int, y as int),
            d < 4,
            -4 <= start <= 0,
        ensures
            final(self).board@ == old(self).board@,
            r == open_four_at(old(self).board@, x as int, y as int, d as int, start as int),
    {
        let ghost b = self.board@;
        let mut pattern = self.is_value(x, y, d, start, EMPTY) && self.is_value(x, y, d, start + 5, EMPTY);
        let mut k: isize = 1;
        while k <= 4
            invariant
                b == self.board@,
                on_board(x as int, y as int),
                d < 4,
                -4 <= start <= 0,
                1 <= k <= 5,
                pattern == (holds_at(b, x as int, y as int, d as int, start as int, EMPTY) && holds_at(
                    b,
                    x as int,
                    y as int,
                    d as int,
                    start + 5,
                    EMPTY,
                ) && forall|j: int| 1 <= j < k ==> #[trigger] holds_at(b, x as int, y as int, d as int, start + j, BLACK)),
            decreases 5 - k,
        {
            if !self.is_value(x, y, d, start + k, BLACK) {
                pattern = false;
            }
            k += 1;
        }
        if !pattern {
            return false;
        }
        let w1 = self.can_win_at(x, y, d, start);
        let w2 = self.can_win_at(x, y, d, start + 5);
        w1 && w2
    }

    /// Whether the stone at `idx` belongs to an open four.
    fn valid_straight_four(&mut self, idx: usize) -> (r: bool)
        requires
            idx < 225,
        ensures
            final(self).board@ == old(self).board@,
            r == straight_four(old(self).board@, idx as int),
    {
        let ghost b = self.board@;
        let (x, y) = xy(idx);
        let mut d: usize = 0;
        while d < 4
            invariant
                b == self.board@,
                b == old(self).board@,
                x == idx % 15,
                y == idx / 15,
                idx < 225,
                d <= 4,
                forall|e: int, s: int|
                    0 <= e < d && -4 <= s <= 0 ==> !#[trigger] open_four_at(b, x as int, y as int, e, s),
            decreases 4 - d,
        {
            let mut start: isize = -4;
            while start <= 0
                invariant
                    b == self.board@,
                    b == old(self).board@,
                    x == idx % 15,
                    y == idx / 15,
                    idx < 225,
                    d < 4,
                    -4 <= start <= 1,
                    forall|e: int, s: int|
                        ((0 <= e < d && -4 <= s <= 0) || (e == d && -4 <= s < start)) ==> !#[trigger] open_four_at(
                            b,
                            x as int,
                            y as int,
                            e,
                            s,
                        ),
                decreases 1 - start,
            {
                if self.open_four(x, y, d, start) {
                    assert(open_four_at(b, idx as int % 15, idx as int / 15, d as int, start as int));
                    return true;
                }
                start += 1;
            }
            d += 1;
        }
        false
    }

    /// Whether the three through `idx` in direction `d` is real.
    fn three_in_dir(&mut self, idx: usize, d: usize, depth: usize) -> (r: bool)
        requires
            idx < 225,
            d < 4,
            depth < 225,
        ensures
            final(self).board@ == old(self).board@,
            r == real_three(old(self).board@, idx as int, d as int, depth as int),
        decreases 225 - depth, 1int,
    {
        let ghost b = self.board@;
        let (x, y) = xy(idx);
        let vitals = self.three_vital_points(x, y, d);
        let ghost vs = vital_points(b, x as int, y as int, d as int);
        proof {
            lemma_vital_points_empty(b, x as int, y as int, dir(d as int).0, dir(d as int).1, 30);
        }
        let mut i: usize = 0;
        while i < vitals.len()
            invariant
                b == self.board@,
                b == old(self).board@,
                b.len() == 225,
                idx < 225,
                depth < 225,
                vs == vital_points(b, idx as int % 15, idx as int / 15, d as int),
                vitals@.len() == vs.len(),
                forall|k: int| 0 <= k < vitals@.len() ==> vitals@[k] as int == #[trigger] vs[k],
                forall|k: int| 0 <= k < vs.len() ==> 0 <= #[trigger] vs[k] < 225 && b[vs[k]] == EMPTY,
                i <= vitals@.len(),
                vital_any(b, vs, i as int, depth as int) == vital_any(b, vs, 0, depth as int),
            decreases vitals@.len() - i,
        {
            let v = vitals[i];
            assert(vs[i as int] == v as int);
            self.board[v] = BLACK;
            let not_forbidden = self.forbidden_at_depth(v, true, depth + 1).is_none();
            let valid = not_forbidden && self.valid_straight_four(v);
            self.board[v] = EMPTY;
            proof {
                assert(self.board@ =~= b);
                assert(valid == vital_ok(b, v as int, depth as int));
            }
            if valid {
                return true;
            }
            i += 1;
        }
        false
    }

    /// The forbidden-move verdict for the black stone at `idx`.
    fn forbidden_at_depth(&mut self, idx: usize, check_three: bool, depth: usize) -> (r: Option<BlackForbiddenKind>)
        requires
            idx < 225,
            depth <= 225,
        ensures
            final(self).board@ == old(self).board@,
            r == forbidden_at(old(self).board@, idx as int, check_three, depth as int),
        decreases 225 - depth, 2int,
    {
        let ghost b = self.board@;
        let (x, y) = xy(idx);
        if self.has_overline(x, y) {
            return Some(BlackForbiddenKind::Overline);
        }
        let mut fours: usize = 0;
        let mut d: usize = 0;
        while d < 4
            invariant
                b == self.board@,
                b == old(self).board@,
                x == idx % 15,
                y == idx / 15,
                idx < 225,
                d <= 4,
                fours == fours_sum(b, x as int, y as int, d as int),
                fours <= 5 * d,
            decreases 4 - d,
        {
            let count = self.line_count(x, y, d);
            let mut patterns = self.four_patterns(x, y, d);
            proof {
                lemma_four_count_bound(b, x as int, y as int, d as int, 5);
            }
            if count == 4 && patterns > 1 {
                patterns = 1;
            }
            fours += patterns;
            d += 1;
        }
        proof {
            reveal_with_fuel(fours_sum, 5);
        }
        if fours >= 2 {
            return Some(BlackForbiddenKind::DoubleFour);
        }
        if !check_three {
            return None;
        }
        if depth >= 225 {
            return Some(BlackForbiddenKind::DoubleThree);
        }
        let mut threes: usize = 0;
        let mut d: usize = 0;
        while d < 4
            invariant
                b == self.board@,
                b == old(self).board@,
                x == idx % 15,
                y == idx / 15,
                idx < 225,
                depth < 225,
                d <= 4,
                threes == threes_sum(b, idx as int, d as int, depth as int),
                threes <= d,
            decreases 4 - d,
        {
            if self.three_in_dir(idx, d, depth) {
                threes += 1;
            }
            d += 1;
        }
        proof {
            reveal_with_fuel(threes_sum, 5);
        }
        if threes >= 2 {
            Some(BlackForbiddenKind::DoubleThree)
        } else {
            None
        }
    }

    /// The verdict for the black stone at `idx`.
    fn forbidden(&mut self, idx: usize, check_three: bool) -> (r: Option<BlackForbiddenKind>)
        requires
            idx < 225,
        ensures
            final(self).board@ == old(self).board@,
            r == forbidden_at(old(self).board@, idx as int, check_three, 0),
    {
        self.forbidden_at_depth(idx, check_three, 0)
    }
}

/// Each vital point is an empty cell of the board.
proof fn lemma_vital_points_empty(b: Seq<u8>, x: int, y: int, dx: int, dy: int, n: int)
    requires
        b.len() == 225,
    ensures
        forall|k: int|
            0 <= k < vital_points_upto(b, x, y, dx, dy, n).len() ==> 0 <= #[trigger] vital_points_upto(
                b,
                x,
                y,
                dx,
                dy,
                n,
            )[k] < 225 && b[vital_points_upto(b, x, y, dx, dy, n)[k]] == EMPTY,
    decreases n,
{
    if n > 0 {
        lemma_vital_points_empty(b, x, y, dx, dy, n - 1);
        let prev = vital_points_upto(b, x, y, dx, dy, n - 1);
        let m = n - 1;
        let k = 1 + m / 5 + m % 5 - 5;
        let c = cell(x + k * dx, y + k * dy);
        let cur = vital_points_upto(b, x, y, dx, dy, n);
        if vital_candidate(b, x, y, dx, dy, m) && !prev.contains(c) {
            assert(line_cell(b, x, y, dx, dy, 1 + m / 5 + m % 5) == EMPTY);
            assert(cur == prev.push(c));
            assert forall|i: int| 0 <= i < cur.len() implies 0 <= #[trigger] cur[i] < 225 && b[cur[i]] == EMPTY by {
                if i < prev.len() {
                    assert(cur[i] == prev[i]);
                }
            }
        }
    }
}

/// At most one new four per window.
proof fn lemma_four_count_bound(b: Seq<u8>, x: int, y: int, d: int, n: int)
    ensures
        four_spots(b, x, y, d, n).len() <= if n > 0 { n } else { 0 },
    decreases n,
{
    if n > 0 {
        lemma_four_count_bound(b, x, y, d, n - 1);
    }
}

proof fn lemma_div5(start: int, offset: int)
    requires
        1 <= start,
        0 <= offset < 5,
    ensures
        1 + ((start - 1) * 5 + offset) / 5 == start,
        ((start - 1) * 5 + offset) % 5 == offset,
{
    assert(((start - 1) * 5 + offset) / 5 == start - 1 && ((start - 1) * 5 + offset) % 5 == offset) by (nonlinear_arith)
        requires
            1 <= start,
            0 <= offset < 5,
    ;
}

/// Once the scan of a window is blocked it stays blocked with the same
/// counts.
proof fn lemma_window_blocked_stays(b: Seq<u8>, x: int, y: int, dx: int, dy: int, s: int, k: int)
    requires
        0 <= k <= 5,
        window_scan(b, x, y, dx, dy, s, k).blocked,
    ensures
        window_scan(b, x, y, dx, dy, s, 5) == window_scan(b, x, y, dx, dy, s, k),
    decreases 5 - k,
{
    if k < 5 {
        lemma_window_blocked_stays(b, x, y, dx, dy, s, k + 1);
    }
}

/// The forbidden-move verdict for a black stone on the empty cell `idx`;
/// `None` off the board, on an occupied cell, or where the stone makes
/// exactly five.
pub fn is_forbidden(board: [u8; 225], idx: usize) -> (r: Option<BlackForbiddenKind>)
    ensures
        r == forbidden_move(board@, idx as int),
{
    if idx >= BOARD_CELLS || board[idx] != EMPTY {
        return None;
    }
    let mut checker = BlackForbiddenMove::new(board);
    checker.board[idx] = BLACK;
    let (x, y) = xy(idx);
    if checker.check_win(x, y) {
        return None;
    }
    checker.forbidden(idx, true)
}

/// The forbidden-move verdict for the black stone already on `idx`; `None`
/// off the board or without a black stone there. With `check_three` false,
/// double threes are not looked for.
pub fn placed_forbidden(board: [u8; 225], idx: usize, check_three: bool) -> (r: Option<BlackForbiddenKind>)
    ensures
        r == placed_verdict(board@, idx as int, check_three),
{
    if idx >= BOARD_CELLS || board[idx] != BLACK {
        return None;
    }
    let mut checker = BlackForbiddenMove::new(board);
    checker.forbidden(idx, check_three)
}

/// Every cell where a black stone would be forbidden, in increasing order.
pub fn forbidden_points(board: [u8; 225]) -> (points: Vec<usize>)
    ensures
        points@ == forbidden_cells(board@),
{
    let ghost all = Seq::new(225, |i: int| i as usize);
    let ghost f = |i: usize| forbidden_move(board@, i as int) is Some;
    let mut points: Vec<usize> = Vec::new();
    let mut idx: usize = 0;
    while idx < BOARD_CELLS
        invariant
            idx <= 225,
            all == Seq::new(225, |i: int| i as usize),
            f == (|i: usize| forbidden_move(board@, i as int) is Some),
            points@ == all.take(idx as int).filter(f),
        decreases 225 - idx,
    {
        proof {
            assert(all.take(idx + 1).drop_last() =~= all.take(idx as int));
            reveal_with_fuel(Seq::<_>::filter, 1);
        }
        if is_forbidden(board, idx).is_some() {
            points.push(idx);
        }
        idx += 1;
    }
    proof {
        assert(all.take(225) =~= all);
    }
    points
}

/// A forbidden verdict only comes for an empty cell of the board where a
/// black stone does not make exactly five.
pub proof fn lemma_forbidden_needs_empty_cell(b: Seq<u8>, idx: int)
    requires
        forbidden_move(b, idx) is Some,
    ensures
        0 <= idx < 225,
        b[idx] == EMPTY,
        !five_at(b.update(idx, BLACK), idx % 15, idx / 15),
{
}

} // verus!
