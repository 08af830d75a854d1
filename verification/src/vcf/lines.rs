use vstd::prelude::*;
use crate::vcf::model::BOARD_CELLS;
use crate::vcf::solver::{EMPTY, BLACK, WHITE, index, xy};
use crate::vcf::blackforbiddenmove::{dir, on_board, cell, holds_at, unit_step};

verus! {
/// Bit `i % 64` of word `w[i / 64]`.
pub open spec fn bit_set(w: [u64; 4], i: int) -> bool {
    w[i / 64] & (1u64 << ((i % 64) as u64)) != 0
}

/// Two bit masks, one per colour, for the cells 0..256 (225 are used).
#[derive(Clone, Copy)]
pub struct BitBoard {
    pub black: [u64; 4],
    pub white: [u64; 4],
}

impl BitBoard {
    /// The content of cell `i`: black where the black bit is set, else white
    /// where the white bit is set, else empty.
    pub open spec fn cell_of(&self, i: int) -> u8 {
        if bit_set(self.black, i) {
            BLACK
        } else if bit_set(self.white, i) {
            WHITE
        } else {
            EMPTY
        }
    }

    /// The 256 cells the masks can hold.
    pub open spec fn cells(&self) -> Seq<u8> {
        Seq::new(256, |i: int| self.cell_of(i))
    }

    /// The board of a cell array: every non-empty cell is set to its colour.
    pub fn from_cells(cells: &[u8; 225]) -> (b: Self)
        requires
            forall|i: int| 0 <= i < 225 ==> #[trigger] cells@[i] == EMPTY || cells@[i] == BLACK || cells@[i] == WHITE,
        ensures
            forall|i: int| 0 <= i < 225 ==> #[trigger] b.cells()[i] == cells@[i],
            forall|i: int| 225 <= i < 256 ==> #[trigger] b.cells()[i] == EMPTY,
    {
        let mut board = BitBoard { black: [0; 4], white: [0; 4] };
        proof {
            assert forall|i: int| 0 <= i < 256 implies #[trigger] board.cells()[i] == EMPTY by {
                let w: u64 = 0;
                let s = (i % 64) as u64;
                assert(w & (1u64 << s) == 0) by (bit_vector)
                    requires
                        w == 0,
                ;
            }
        }
        let mut idx: usize = 0;
        while idx < BOARD_CELLS
            invariant
                idx <= 225,
                forall|i: int| 0 <= i < 225 ==> #[trigger] cells@[i] == EMPTY || cells@[i] == BLACK || cells@[i] == WHITE,
                forall|i: int| 0 <= i < idx ==> #[trigger] board.cells()[i] == cells@[i],
                forall|i: int| idx <= i < 256 ==> #[trigger] board.cells()[i] == EMPTY,
            decreases 225 - idx,
        {
            let stone = cells[idx];
            if stone != EMPTY {
                board.set(idx, stone);
            }
            idx += 1;
        }
        board
    }

    /// The content of cell `idx`.
    pub fn get(&self, idx: usize) -> (v: u8)
        requires
            idx < 256,
        ensures
            v == self.cells()[idx as int],
    {
        proof {
            lemma_word_bit(idx);
        }
        let word = idx >> 6;
        let mask = 1u64 << ((idx & 63) as u64);
        if self.black[word] & mask != 0 {
            BLACK
        } else if self.white[word] & mask != 0 {
            WHITE
        } else {
            EMPTY
        }
    }

    /// Puts a stone of `color` on cell `idx`, replacing what was there.
    pub fn set(&mut self, idx: usize, color: u8)
        requires
            idx < 256,
            color == BLACK || color == WHITE,
        ensures
            final(self).cells() == old(self).cells().update(idx as int, color),
    {
        proof {
            lemma_word_bit(idx);
        }
        let word = idx >> 6;
        let shift = (idx & 63) as u64;
        let mask = 1u64 << shift;
        let ghost old_b = *self;
        self.black[word] = self.black[word] & !mask;
        self.white[word] = self.white[word] & !mask;
        if color == BLACK {
            self.black[word] = self.black[word] | mask;
        } else {
            self.white[word] = self.white[word] | mask;
        }
        proof {
            let new_b = *self;
            assert forall|i: int| 0 <= i < 256 implies #[trigger] new_b.cells()[i] == old_b.cells().update(
                idx as int,
                color,
            )[i] by {
                lemma_other_bits(old_b, new_b, idx as int, i, color);
            }
            assert(new_b.cells() =~= old_b.cells().update(idx as int, color));
        }
    }

    /// Empties cell `idx`.
    pub fn clear(&mut self, idx: usize)
        requires
            idx < 256,
        ensures
            final(self).cells() == old(self).cells().update(idx as int, EMPTY),
    {
        proof {
            lemma_word_bit(idx);
        }
        let word = idx >> 6;
        let shift = (idx & 63) as u64;
        let mask = !(1u64 << shift);
        let ghost old_b = *self;
        self.black[word] = self.black[word] & mask;
        self.white[word] = self.white[word] & mask;
        proof {
            let new_b = *self;
            assert forall|i: int| 0 <= i < 256 implies #[trigger] new_b.cells()[i] == old_b.cells().update(
                idx as int,
                EMPTY,
            )[i] by {
                lemma_other_bits(old_b, new_b, idx as int, i, EMPTY);
            }
            assert(new_b.cells() =~= old_b.cells().update(idx as int, EMPTY));
        }
    }

    /// Whether cell `idx` is empty.
    pub fn is_empty(&self, idx: usize) -> (r: bool)
        requires
            idx < 256,
        ensures
            r == (self.cells()[idx as int] == EMPTY),
    {
        proof {
            lemma_word_bit(idx);
        }
        let word = idx >> 6;
        let mask = 1u64 << ((idx & 63) as u64);
        proof {
            let b = self.black[word as int];
            let w = self.white[word as int];
            assert((b | w) & mask == 0 <==> (b & mask == 0 && w & mask == 0)) by (bit_vector);
        }
        (self.black[word] | self.white[word]) & mask == 0
    }

    /// The 225 cells of the board.
    pub fn to_cells(self) -> (cells: [u8; 225])
        ensures
            forall|i: int| 0 <= i < 225 ==> #[trigger] cells@[i] == self.cells()[i],
    {
        let mut cells = [EMPTY; 225];
        let mut idx: usize = 0;
        while idx < BOARD_CELLS
            invariant
                idx <= 225,
                forall|i: int| 0 <= i < idx ==> #[trigger] cells@[i] == self.cells()[i],
            decreases 225 - idx,
        {
            cells[idx] = self.get(idx);
            idx += 1;
        }
        cells
    }
}

proof fn lemma_word_bit(idx: usize)
    requires
        idx < 256,
    ensures
        idx >> 6 == idx / 64,
        idx & 63 == idx % 64,
        idx / 64 < 4,
{
    assert(idx >> 6 == idx / 64 && idx & 63 == idx % 64) by (bit_vector);
}

/// Writing the bit of cell `idx` leaves the other cells alone and gives cell
/// `idx` the colour written.
proof fn lemma_other_bits(o: BitBoard, n: BitBoard, idx: int, i: int, color: u8)
    requires
        0 <= idx < 256,
        0 <= i < 256,
        color == EMPTY || color == BLACK || color == WHITE,
        forall|w: int| 0 <= w < 4 && w != idx / 64 ==> n.black[w] == o.black[w] && n.white[w] == o.white[w],
        ({
            let m = 1u64 << ((idx % 64) as u64);
            let w = idx / 64;
            &&& n.black[w] == if color == BLACK { (o.black[w] & !m) | m } else { o.black[w] & !m }
            &&& n.white[w] == if color == WHITE { (o.white[w] & !m) | m } else { o.white[w] & !m }
        }),
    ensures
        n.cell_of(i) == (if i == idx { color } else { o.cell_of(i) }),
{
    let a = (idx % 64) as u64;
    let c = (i % 64) as u64;
    let ob = o.black[idx / 64];
    let ow = o.white[idx / 64];
    assert(a < 64 && c < 64);
    assert(((ob & !(1u64 << a)) | (1u64 << a)) & (1u64 << a) != 0) by (bit_vector)
        requires a < 64;
    assert((ob & !(1u64 << a)) & (1u64 << a) == 0) by (bit_vector)
        requires a < 64;
    assert((ow & !(1u64 << a)) & (1u64 << a) == 0) by (bit_vector)
        requires a < 64;
    assert(((ow & !(1u64 << a)) | (1u64 << a)) & (1u64 << a) != 0) by (bit_vector)
        requires a < 64;
    if i != idx && i / 64 == idx / 64 {
        assert(a != c);
        assert(((ob & !(1u64 << a)) | (1u64 << a)) & (1u64 << c) == ob & (1u64 << c)) by (bit_vector)
            requires a < 64, c < 64, a != c;
        assert((ob & !(1u64 << a)) & (1u64 << c) == ob & (1u64 << c)) by (bit_vector)
            requires a < 64, c < 64, a != c;
        assert(((ow & !(1u64 << a)) | (1u64 << a)) & (1u64 << c) == ow & (1u64 << c)) by (bit_vector)
            requires a < 64, c < 64, a != c;
        assert((ow & !(1u64 << a)) & (1u64 << c) == ow & (1u64 << c)) by (bit_vector)
            requires a < 64, c < 64, a != c;
    }
}

// ---------------------------------------------------------------------------
// Line rules for either colour, over the cells of a board.
/// Whether (x, y) is on the board and holds `color`.
pub open spec fn color_at(b: Seq<u8>, x: int, y: int, color: u8) -> bool {
    on_board(x, y) && b[cell(x, y)] == color
}

/// Stones of `color` that follow (x, y) without a gap in direction (dx, dy),
/// counting from `step` steps away.
pub open spec fn run_c(b: Seq<u8>, x: int, y: int, dx: int, dy: int, step: int, color: u8) -> int
    decreases 16 - step,
{
    if step <= 15 && color_at(b, x + dx * step, y + dy * step, color) {
        1 + run_c(b, x, y, dx, dy, step + 1, color)
    } else {
        0
    }
}

/// Length of the line of `color` through (x, y) in direction `d`, counting
/// (x, y) itself.
pub open spec fn line_count_c(b: Seq<u8>, x: int, y: int, d: int, color: u8) -> int {
    1 + run_c(b, x, y, dir(d).0, dir(d).1, 1, color) + run_c(b, x, y, -dir(d).0, -dir(d).1, 1, color)
}

/// Whether a line of `count` stones wins: exactly five for Black, five or
/// more for White.
pub open spec fn wins_with(count: int, color: u8) -> bool {
    if color == BLACK {
        count == 5
    } else {
        count >= 5
    }
}

/// Whether (x, y) lies on a winning line of `color`.
pub open spec fn five_c(b: Seq<u8>, x: int, y: int, color: u8) -> bool {
    exists|d: int| 0 <= d < 4 && wins_with(#[trigger] line_count_c(b, x, y, d, color), color)
}

/// Scan of the first `k` cells of the window that starts `s` steps from
/// (x, y) in direction (dx, dy): (x, y) counts as a stone of `color`; the
/// scan stops at the edge or at a stone that is neither `color` nor empty.
pub open spec fn window_scan_c(b: Seq<u8>, x: int, y: int, dx: int, dy: int, s: int, k: int, color: u8) -> (bool, int, int, int)
    decreases k,
{
    if k <= 0 {
        (false, 0, 0, -1)
    } else {
        let p = window_scan_c(b, x, y, dx, dy, s, k - 1, color);
        let pos = s + k - 1;
        let (cx, cy) = (x + pos * dx, y + pos * dy);
        if p.0 {
            p
        } else if pos == 0 {
            (p.0, p.1 + 1, p.2, p.3)
        } else if !on_board(cx, cy) {
            (true, p.1, p.2, p.3)
        } else if b[cell(cx, cy)] == color {
            (p.0, p.1 + 1, p.2, p.3)
        } else if b[cell(cx, cy)] == EMPTY {
            (p.0, p.1, p.2 + 1, cell(cx, cy))
        } else {
            (true, p.1, p.2, p.3)
        }
    }
}

/// The gap of the window that starts `s` steps from (x, y) in direction `d`
/// when it holds four stones of `color` (counting (x, y)) and one gap.
pub open spec fn four_gap_c(b: Seq<u8>, x: int, y: int, d: int, s: int, color: u8) -> Option<int> {
    let w = window_scan_c(b, x, y, dir(d).0, dir(d).1, s, 5, color);
    if !w.0 && w.1 == 4 && w.2 == 1 {
        Some(w.3)
    } else {
        None
    }
}

/// The distinct gaps that make fours of `color` through (x, y) in direction
/// `d`, over the first `n` windows; for Black a gap that would make six or
/// more is left out.
pub open spec fn four_spots_c(b: Seq<u8>, x: int, y: int, d: int, n: int, color: u8) -> Seq<int>
    decreases n,
{
    if n <= 0 {
        Seq::empty()
    } else {
        let prev = four_spots_c(b, x, y, d, n - 1, color);
        match four_gap_c(b, x, y, d, n - 5, color) {
            Some(g) => if !prev.contains(g) && (color != BLACK || line_count_c(
                b.update(g, BLACK),
                g % 15,
                g / 15,
                d,
                BLACK,
            ) <= 5) {
                prev.push(g)
            } else {
                prev
            },
            None => prev,
        }
    }
}

/// Number of different fours of `color` through (x, y) in direction `d`.
pub open spec fn four_count_c(b: Seq<u8>, x: int, y: int, d: int, color: u8) -> int {
    four_spots_c(b, x, y, d, 5, color).len() as int
}

/// Whether a stone of `color` on the empty cell `k` steps from (x, y) in
/// direction `d` would win.
pub open spec fn can_win_at_c(b: Seq<u8>, x: int, y: int, d: int, k: int, color: u8) -> bool {
    let (tx, ty) = (x + k * dir(d).0, y + k * dir(d).1);
    on_board(tx, ty) && b[cell(tx, ty)] == EMPTY && five_c(b.update(cell(tx, ty), color), tx, ty, color)
}

/// An open four of `color` next to the cell `s` steps from (x, y) in
/// direction `d`.
pub open spec fn open_four_c(b: Seq<u8>, x: int, y: int, d: int, s: int, color: u8) -> bool {
    &&& holds_at(b, x, y, d, s, EMPTY)
    &&& holds_at(b, x, y, d, s + 5, EMPTY)
    &&& forall|k: int| 1 <= k <= 4 ==> #[trigger] holds_at(b, x, y, d, s + k, color)
    &&& can_win_at_c(b, x, y, d, s, color)
    &&& can_win_at_c(b, x, y, d, s + 5, color)
}

/// Whether (x, y) is part of an open four of `color`.
pub open spec fn straight_four_c(b: Seq<u8>, x: int, y: int, color: u8) -> bool {
    exists|d: int, s: int| 0 <= d < 4 && -4 <= s <= 0 && #[trigger] open_four_c(b, x, y, d, s, color)
}

/// Whether the stone of `color` at (x, y) makes a five or a four in some
/// direction (for Black, not along a line of six or more).
pub open spec fn makes_four_c(b: Seq<u8>, x: int, y: int, color: u8) -> bool {
    exists|d: int|
        0 <= d < 4 && (wins_with(#[trigger] line_count_c(b, x, y, d, color), color) || (!(color == BLACK
            && line_count_c(b, x, y, d, color) >= 6) && four_count_c(b, x, y, d, color) > 0))
}

/// Whether `c` is a stone colour.
pub open spec fn is_color(c: u8) -> bool {
    c == BLACK || c == WHITE
}

pub(crate) fn dir_of(d: usize) -> (r: (isize, isize))
    requires
        d < 4,
    ensures
        r.0 == dir(d as int).0,
        r.1 == dir(d as int).1,
        unit_step(r.0 as int, r.1 as int),
{
    if d == 0 {
        (1, 0)
    } else if d == 1 {
        (0, 1)
    } else if d == 2 {
        (1, 1)
    } else {
        (1, -1)
    }
}

pub(crate) proof fn lemma_unit_mul(d: int, s: int)
    requires
        -1 <= d <= 1,
    ensures
        d * s == (if d == 1 {
            s
        } else if d == -1 {
            -s
        } else {
            0
        }),
{
    if d == -1 {
        assert(d * s == -s) by (nonlinear_arith)
            requires
                d == -1,
        ;
    }
}

proof fn lemma_steps_on_board(x: int, y: int, dx: int, dy: int, s: int)
    requires
        on_board(x, y),
        unit_step(dx, dy),
        s >= 1,
        on_board(x + dx * s, y + dy * s),
    ensures
        s <= 14,
{
    lemma_unit_mul(dx, s);
    lemma_unit_mul(dy, s);
}

proof fn lemma_scan_blocked_stays(b: Seq<u8>, x: int, y: int, dx: int, dy: int, s: int, k: int, color: u8)
    requires
        0 <= k <= 5,
        window_scan_c(b, x, y, dx, dy, s, k, color).0,
    ensures
        window_scan_c(b, x, y, dx, dy, s, 5, color) == window_scan_c(b, x, y, dx, dy, s, k, color),
    decreases 5 - k,
{
    if k < 5 {
        lemma_scan_blocked_stays(b, x, y, dx, dy, s, k + 1, color);
    }
}

proof fn lemma_four_spots_bound(b: Seq<u8>, x: int, y: int, d: int, n: int, color: u8)
    ensures
        four_spots_c(b, x, y, d, n, color).len() <= if n > 0 { n } else { 0 },
    decreases n,
{
    if n > 0 {
        lemma_four_spots_bound(b, x, y, d, n - 1, color);
    }
}

impl BitBoard {
    pub(crate) fn run_len(&self, x: usize, y: usize, dx: isize, dy: isize, color: u8) -> (r: usize)
        requires
            on_board(x as int, y as int),
            unit_step(dx as int, dy as int),
        ensures
            r == run_c(self.cells(), x as int, y as int, dx as int, dy as int, 1, color),
            r <= 14,
    {
        let ghost b = self.cells();
        let mut step: isize = 1;
        let mut count: usize = 0;
        loop
            invariant
                b == self.cells(),
                on_board(x as int, y as int),
                unit_step(dx as int, dy as int),
                1 <= step <= 15,
                count == step - 1,
                count + run_c(b, x as int, y as int, dx as int, dy as int, step as int, color) == run_c(
                    b,
                    x as int,
                    y as int,
                    dx as int,
                    dy as int,
                    1,
                    color,
                ),
            decreases 15 - step,
        {
            proof {
                lemma_unit_mul(dx as int, step as int);
                lemma_unit_mul(dy as int, step as int);
            }
            let cx = x as isize + dx * step;
            let cy = y as isize + dy * step;
            match index(cx, cy) {
                Some(idx) => {
                    if self.get(idx) != color {
                        return count;
                    }
                    proof {
                        lemma_steps_on_board(x as int, y as int, dx as int, dy as int, step as int);
                    }
                    count += 1;
                    step += 1;
                },
                None => {
                    return count;
                },
            }
        }
    }

    /// Length of the line of `color` through (x, y) in direction `d`.
    pub(crate) fn line_count(&self, x: usize, y: usize, d: usize, color: u8) -> (r: usize)
        requires
            on_board(x as int, y as int),
            d < 4,
        ensures
            r == line_count_c(self.cells(), x as int, y as int, d as int, color),
    {
        let (dx, dy) = dir_of(d);
        let back = self.run_len(x, y, -dx, -dy, color);
        let fwd = self.run_len(x, y, dx, dy, color);
        1 + back + fwd
    }

    /// Whether (x, y) lies on a winning line of `color`.
    pub(crate) fn check_win(&self, x: usize, y: usize, color: u8) -> (r: bool)
        requires
            on_board(x as int, y as int),
        ensures
            r == five_c(self.cells(), x as int, y as int, color),
    {
        let mut d: usize = 0;
        while d < 4
            invariant
                on_board(x as int, y as int),
                d <= 4,
                forall|e: int|
                    0 <= e < d ==> !wins_with(#[trigger] line_count_c(self.cells(), x as int, y as int, e, color), color),
            decreases 4 - d,
        {
            let count = self.line_count(x, y, d, color);
            if (color == BLACK && count == 5) || (color != BLACK && count >= 5) {
                return true;
            }
            d += 1;
        }
        false
    }

    pub(crate) fn scan_window(&self, x: usize, y: usize, d: usize, start: isize, color: u8) -> (r: (bool, usize, usize, usize))
        requires
            on_board(x as int, y as int),
            d < 4,
            -4 <= start <= 0,
        ensures
            ({
                let w = window_scan_c(self.cells(), x as int, y as int, dir(d as int).0, dir(d as int).1, start as int, 5, color);
                &&& r.0 == w.0
                &&& r.1 == w.1
                &&& r.2 == w.2
                &&& (w.2 > 0 ==> r.3 == w.3 && 0 <= w.3 < 225 && self.cells()[w.3] == EMPTY)
            }),
    {
        let ghost b = self.cells();
        let (dx, dy) = dir_of(d);
        let mut stones: usize = 0;
        let mut empties: usize = 0;
        let mut gap: usize = 0;
        let mut k: isize = 0;
        while k < 5
            invariant
                b == self.cells(),
                on_board(x as int, y as int),
                d < 4,
                dx == dir(d as int).0,
                dy == dir(d as int).1,
                -4 <= start <= 0,
                0 <= k <= 5,
                ({
                    let w = window_scan_c(b, x as int, y as int, dx as int, dy as int, start as int, k as int, color);
                    &&& !w.0
                    &&& stones == w.1
                    &&& empties == w.2
                    &&& stones + empties <= k
                    &&& (w.2 > 0 ==> gap == w.3 && 0 <= w.3 < 225 && b[w.3] == EMPTY)
                }),
            decreases 5 - k,
        {
            let pos = start + k;
            proof {
                lemma_unit_mul(dx as int, pos as int);
                lemma_unit_mul(dy as int, pos as int);
            }
            if pos == 0 {
                stones += 1;
            } else {
                match index(x as isize + pos * dx, y as isize + pos * dy) {
                    None => {
                        proof {
                            lemma_scan_blocked_stays(b, x as int, y as int, dx as int, dy as int, start as int, k + 1, color);
                        }
                        return (true, stones, empties, gap);
                    },
                    Some(idx) => {
                        let v = self.get(idx);
                        if v == color {
                            stones += 1;
                        } else if v == EMPTY {
                            empties += 1;
                            gap = idx;
                        } else {
                            proof {
                                lemma_scan_blocked_stays(b, x as int, y as int, dx as int, dy as int, start as int, k + 1, color);
                            }
                            return (true, stones, empties, gap);
                        }
                    },
                }
            }
            k += 1;
        }
        (false, stones, empties, gap)
    }

    pub(crate) fn contains_cell(v: &Vec<usize>, c: usize) -> (r: bool)
        ensures
            r == (exists|i: int| 0 <= i < v@.len() && v@[i] == c),
    {
        let mut i: usize = 0;
        while i < v.len()
            invariant
                i <= v@.len(),
                forall|j: int| 0 <= j < i ==> v@[j] != c,
            decreases v@.len() - i,
        {
            if v[i] == c {
                return true;
            }
            i += 1;
        }
        false
    }

    /// Number of different fours of `color` through (x, y) in direction `d`.
    pub(crate) fn four_patterns(&mut self, x: usize, y: usize, d: usize, color: u8) -> (r: usize)
        requires
            on_board(x as int, y as int),
            d < 4,
        ensures
            final(self).cells() == old(self).cells(),
            r == four_count_c(old(self).cells(), x as int, y as int, d as int, color),
            r <= 5,
    {
        let ghost b = self.cells();
        let mut spots: Vec<usize> = Vec::new();
        let mut n: usize = 0;
        while n < 5
            invariant
                b == self.cells(),
                b == old(self).cells(),
                on_board(x as int, y as int),
                d < 4,
                n <= 5,
                spots@.len() == four_spots_c(b, x as int, y as int, d as int, n as int, color).len(),
                forall|i: int| 0 <= i < spots@.len() ==> spots@[i] as int == #[trigger] four_spots_c(
                    b,
                    x as int,
                    y as int,
                    d as int,
                    n as int,
                    color,
                )[i],
            decreases 5 - n,
        {
            let start = n as isize - 4;
            let ghost prev = four_spots_c(b, x as int, y as int, d as int, n as int, color);
            let (blocked, stones, empties, gap) = self.scan_window(x, y, d, start, color);
            if !blocked && stones == 4 && empties == 1 {
                let seen = Self::contains_cell(&spots, gap);
                proof {
                    assert(seen == prev.contains(gap as int)) by {
                        if seen {
                            let i = choose|i: int| 0 <= i < spots@.len() && spots@[i] == gap;
                            assert(prev[i] == gap as int);
                        }
                        if prev.contains(gap as int) {
                            let i = choose|i: int| 0 <= i < prev.len() && prev[i] == gap as int;
                            assert(spots@[i] as int == prev[i]);
                        }
                    }
                }
                if !seen {
                    if color == BLACK {
                        let (gx, gy) = xy(gap);
                        self.set(gap, BLACK);
                        let count = self.line_count(gx, gy, d, BLACK);
                        self.clear(gap);
                        proof {
                            assert(self.cells() =~= b);
                        }
                        if count <= 5 {
                            spots.push(gap);
                        }
                    } else {
                        spots.push(gap);
                    }
                }
            }
            n += 1;
        }
        proof {
            lemma_four_spots_bound(b, x as int, y as int, d as int, 5, color);
        }
        spots.len()
    }

    /// Whether (x, y) plus `k` steps in direction `d` holds `expected`.
    pub(crate) fn is_value(&self, x: usize, y: usize, d: usize, k: isize, expected: u8) -> (r: bool)
        requires
            on_board(x as int, y as int),
            d < 4,
            -5 <= k <= 5,
        ensures
            r == holds_at(self.cells(), x as int, y as int, d as int, k as int, expected),
    {
        if k == 0 {
            return true;
        }
        let (dx, dy) = dir_of(d);
        proof {
            lemma_unit_mul(dx as int, k as int);
            lemma_unit_mul(dy as int, k as int);
        }
        match index(x as isize + k * dx, y as isize + k * dy) {
            Some(idx) => self.get(idx) == expected,
            None => false,
        }
    }

    /// Whether a stone of `color` `k` steps from (x, y) in direction `d`
    /// would win there.
    pub(crate) fn can_win_at(&mut self, x: usize, y: usize, d: usize, k: isize, color: u8) -> (r: bool)
        requires
            on_board(x as int, y as int),
            d < 4,
            -5 <= k <= 5,
            is_color(color),
        ensures
            final(self).cells() == old(self).cells(),
            r == can_win_at_c(old(self).cells(), x as int, y as int, d as int, k as int, color),
    {
        let ghost b = self.cells();
        let (dx, dy) = dir_of(d);
        proof {
            lemma_unit_mul(dx as int, k as int);
            lemma_unit_mul(dy as int, k as int);
        }
        let idx = match index(x as isize + k * dx, y as isize + k * dy) {
            Some(idx) => idx,
            None => {
                return false;
            },
        };
        if !self.is_empty(idx) {
            return false;
        }
        let (tx, ty) = xy(idx);
        self.set(idx, color);
        let wins = self.check_win(tx, ty, color);
        self.clear(idx);
        proof {
            assert(self.cells() =~= b);
        }
        wins
    }

    pub(crate) fn open_four(&mut self, x: usize, y: usize, d: usize, start: isize, color: u8) -> (r: bool)
        requires
            on_board(x as int, y as int),
            d < 4,
            -4 <= start <= 0,
            is_color(color),
        ensures
            final(self).cells() == old(self).cells(),
            r == open_four_c(old(self).cells(), x as int, y as int, d as int, start as int, color),
    {
        let ghost b = self.cells();
        let mut pattern = self.is_value(x, y, d, start, EMPTY) && self.is_value(x, y, d, start + 5, EMPTY);
        let mut k: isize = 1;
        while k <= 4
            invariant
                b == self.cells(),
                on_board(x as int, y as int),
                d < 4,
                -4 <= start <= 0,
                1 <= k <= 5,
                pattern == (holds_at(b, x as int, y as int, d as int, start as int, EMPTY) && holds_at(
                    b,
                    x as int,
                    y as int,
                    d as int,
                    start + 5,
                    EMPTY,
                ) && forall|j: int| 1 <= j < k ==> #[trigger] holds_at(b, x as int, y as int, d as int, start + j, color)),
            decreases 5 - k,
        {
            if !self.is_value(x, y, d, start + k, color) {
                pattern = false;
            }
            k += 1;
        }
        if !pattern {
            return false;
        }
        let w1 = self.can_win_at(x, y, d, start, color);
        let w2 = self.can_win_at(x, y, d, start + 5, color);
        w1 && w2
    }

    /// Whether (x, y) is part of an open four of `color`.
    pub(crate) fn valid_straight_four(&mut self, x: usize, y: usize, color: u8) -> (r: bool)
        requires
            on_board(x as int, y as int),
            is_color(color),
        ensures
            final(self).cells() == old(self).cells(),
            r == straight_four_c(old(self).cells(), x as int, y as int, color),
    {
        let ghost b = self.cells();
        let mut d: usize = 0;
        while d < 4
            invariant
                b == self.cells(),
                b == old(self).cells(),
                on_board(x as int, y as int),
                is_color(color),
                d <= 4,
                forall|e: int, s: int|
                    0 <= e < d && -4 <= s <= 0 ==> !#[trigger] open_four_c(b, x as int, y as int, e, s, color),
            decreases 4 - d,
        {
            let mut start: isize = -4;
            while start <= 0
                invariant
                    b == self.cells(),
                    b == old(self).cells(),
                    on_board(x as int, y as int),
                    is_color(color),
                    d < 4,
                    -4 <= start <= 1,
                    forall|e: int, s: int|
                        ((0 <= e < d && -4 <= s <= 0) || (e == d && -4 <= s < start)) ==> !#[trigger] open_four_c(
                            b,
                            x as int,
                            y as int,
                            e,
                            s,
                            color,
                        ),
                decreases 1 - start,
            {
                if self.open_four(x, y, d, start, color) {
                    return true;
                }
                start += 1;
            }
            d += 1;
        }
        false
    }

    /// Whether the stone of `color` at (x, y) makes a five or a four.
    pub(crate) fn makes_four_or_five(&mut self, x: usize, y: usize, color: u8) -> (r: bool)
        requires
            on_board(x as int, y as int),
            is_color(color),
        ensures
            final(self).cells() == old(self).cells(),
            r == makes_four_c(old(self).cells(), x as int, y as int, color),
    {
        let ghost b = self.cells();
        let mut d: usize = 0;
        while d < 4
            invariant
                b == self.cells(),
                b == old(self).cells(),
                on_board(x as int, y as int),
                is_color(color),
                d <= 4,
                forall|e: int|
                    0 <= e < d ==> !(wins_with(#[trigger] line_count_c(b, x as int, y as int, e, color), color) || (!(
                    color == BLACK && line_count_c(b, x as int, y as int, e, color) >= 6) && four_count_c(
                        b,
                        x as int,
                        y as int,
                        e,
                        color,
                    ) > 0)),
            decreases 4 - d,
        {
            let count = self.line_count(x, y, d, color);
            if (color == BLACK && count == 5) || (color == WHITE && count >= 5) {
                return true;
            }
            if !(color == BLACK && count >= 6) {
                if self.four_patterns(x, y, d, color) > 0 {
                    return true;
                }
            }
            d += 1;
        }
        false
    }
}


} // verus!
