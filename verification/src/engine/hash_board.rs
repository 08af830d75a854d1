use vstd::prelude::*;
use crate::engine::keys::{key, key_value};
use crate::engine::zobrist::{
    Zobrist, transform, transformed_index, on_board, lemma_transform_on_board, composition,
    lemma_composition,
};

verus! {

/// A stone for hashing purposes: column, row and colour (0 black, 1 white).
pub type Stone = (int, int, int);

/// Zobrist hash of a list of stones seen through symmetry `t`: the xor of the
/// keys of the image cells.
pub open spec fn hash_of(stones: Seq<Stone>, t: int) -> u64
    decreases stones.len(),
{
    if stones.len() == 0 {
        0
    } else {
        let s = stones.last();
        hash_of(stones.drop_last(), t) ^ key_value(transformed_index(s.0, s.1, t), s.2)
    }
}

/// The stones moved by symmetry `s`.
pub open spec fn transformed_stones(stones: Seq<Stone>, s: int) -> Seq<Stone> {
    stones.map_values(|st: Stone| (transform(st.0, st.1, s).0, transform(st.0, st.1, s).1, st.2))
}

/// Whether `m` is the least of the eight values `f(0)`, ..., `f(7)`.
pub open spec fn is_min8(f: spec_fn(int) -> u64, m: u64) -> bool {
    &&& exists|t: int| 0 <= t < 8 && #[trigger] f(t) == m
    &&& forall|t: int| 0 <= t < 8 ==> m <= #[trigger] f(t)
}

/// Bit `idx % 64` of word `idx / 64` of an occupancy mask.
pub open spec fn occupied_bit(occ: Seq<u64>, idx: int) -> bool {
    (occ[idx / 64] >> ((idx % 64) as u64)) & 1 == 1
}

/// Board for hashing: occupancy bits, the hash of the position seen through
/// each of the eight symmetries, and the number of moves made.
#[derive(Clone, Copy)]
pub struct Board {
    pub occupied: [u64; 4],
    pub hashes: [u64; 8],
    pub move_count: usize,
}

impl Board {
    /// The hash seen through symmetry `t`.
    pub open spec fn hash_view(&self) -> spec_fn(int) -> u64 {
        |t: int| self.hashes[t]
    }

    /// Whether the hashes are those of the given stones.
    pub open spec fn hashes_of(&self, stones: Seq<Stone>) -> bool {
        forall|t: int| 0 <= t < 8 ==> #[trigger] self.hashes[t] == hash_of(stones, t)
    }

    /// An empty board: nothing occupied, every hash 0, no move made.
    pub fn new() -> (b: Self)
        ensures
            b.hashes_of(Seq::empty()),
            forall|w: int| 0 <= w < 4 ==> #[trigger] b.occupied[w] == 0,
            b.move_count == 0,
    {
        Board { occupied: [0; 4], hashes: [0; 8], move_count: 0 }
    }

    /// The least of the eight hashes: the same for a position and its images
    /// under the symmetries (see `lemma_canonical_hash_symmetric`).
    pub fn get_canonical_hash(&self) -> (h: u64)
        ensures
            is_min8(self.hash_view(), h),
    {
        let mut m = self.hashes[0];
        let mut t: usize = 1;
        while t < 8
            invariant
                1 <= t <= 8,
                exists|s: int| 0 <= s < t && self.hashes[s] == m,
                forall|s: int| 0 <= s < t ==> m <= #[trigger] self.hashes[s],
            decreases 8 - t,
        {
            if self.hashes[t] < m {
                m = self.hashes[t];
            }
            t += 1;
        }
        proof {
            let f = self.hash_view();
            assert forall|s: int| 0 <= s < 8 implies m <= #[trigger] f(s) by {
                assert(f(s) == self.hashes[s]);
            }
            let s0 = choose|s: int| 0 <= s < 8 && self.hashes[s] == m;
            assert(f(s0) == m);
        }
        m
    }

    /// Xors the keys of (x, y) for colour `color`, seen through each symmetry.
    fn update_hashes(&mut self, x: i8, y: i8, color: usize)
        requires
            on_board(x as int, y as int),
            color < 2,
        ensures
            final(self).occupied == old(self).occupied,
            final(self).move_count == old(self).move_count,
            forall|t: int|
                0 <= t < 8 ==> #[trigger] final(self).hashes[t] == old(self).hashes[t] ^ key_value(
                    transformed_index(x as int, y as int, t),
                    color as int,
                ),
    {
        let mut t: usize = 0;
        while t < 8
            invariant
                on_board(x as int, y as int),
                color < 2,
                t <= 8,
                self.occupied == old(self).occupied,
                self.move_count == old(self).move_count,
                forall|s: int|
                    0 <= s < t ==> #[trigger] self.hashes[s] == old(self).hashes[s] ^ key_value(
                        transformed_index(x as int, y as int, s),
                        color as int,
                    ),
                forall|s: int| t <= s < 8 ==> #[trigger] self.hashes[s] == old(self).hashes[s],
            decreases 8 - t,
        {
            let idx = Zobrist::get_transformed_idx(x, y, t);
            let k = key(idx, color);
            self.hashes[t] = self.hashes[t] ^ k;
            t += 1;
        }
    }

    /// Plays (x, y) for the colour whose turn the move count gives (even:
    /// black); off the board only the move count advances.
    pub fn make_move(&mut self, x: i8, y: i8)
        requires
            old(self).move_count < usize::MAX,
        ensures
            final(self).move_count == old(self).move_count + 1,
            on_board(x as int, y as int) ==> final(self).placed_from(
                *old(self),
                x as int,
                y as int,
                (old(self).move_count % 2) as int,
            ),
            !on_board(x as int, y as int) ==> final(self).occupied == old(self).occupied
                && final(self).hashes == old(self).hashes,
    {
        if x >= 0 && y >= 0 && x < 15 && y < 15 {
            let color_idx = self.move_count % 2;
            self.set_bit(x, y);
            self.update_hashes(x, y, color_idx);
        }
        self.move_count += 1;
    }

    /// Plays (x, y) for colour `color_idx` (0 black, 1 white); off the board
    /// only the move count advances.
    pub fn make_move_with_color(&mut self, x: i8, y: i8, color_idx: usize)
        requires
            old(self).move_count < usize::MAX,
            on_board(x as int, y as int) ==> color_idx < 2,
        ensures
            final(self).move_count == old(self).move_count + 1,
            on_board(x as int, y as int) ==> final(self).placed_from(
                *old(self),
                x as int,
                y as int,
                color_idx as int,
            ),
            !on_board(x as int, y as int) ==> final(self).occupied == old(self).occupied
                && final(self).hashes == old(self).hashes,
    {
        if x >= 0 && y >= 0 && x < 15 && y < 15 {
            self.set_bit(x, y);
            self.update_hashes(x, y, color_idx);
        }
        self.move_count += 1;
    }

    /// Takes back (x, y): the move count goes down (not below 0) and, on the
    /// board, the cell's bit clears and the keys of the colour whose turn the
    /// new move count gives are xored out again.
    pub fn undo_move(&mut self, x: i8, y: i8)
        ensures
            final(self).move_count == if old(self).move_count > 0 {
                old(self).move_count - 1
            } else {
                0
            },
            on_board(x as int, y as int) ==> final(self).removed_from(
                *old(self),
                x as int,
                y as int,
                (final(self).move_count % 2) as int,
            ),
            !on_board(x as int, y as int) ==> final(self).occupied == old(self).occupied
                && final(self).hashes == old(self).hashes,
    {
        if self.move_count > 0 {
            self.move_count -= 1;
        }
        if x >= 0 && y >= 0 && x < 15 && y < 15 {
            let color_idx = self.move_count % 2;
            self.clear_bit(x, y);
            self.update_hashes(x, y, color_idx);
        }
    }

    /// `self` is `old` with the stone (x, y, c) added: its bit set and its keys
    /// xored into every hash.
    pub open spec fn placed_from(&self, old: Board, x: int, y: int, c: int) -> bool {
        let idx = y * 15 + x;
        &&& forall|w: int| 0 <= w < 4 && w != idx / 64 ==> #[trigger] self.occupied[w] == old.occupied[w]
        &&& self.occupied[idx / 64] == old.occupied[idx / 64] | (1u64 << ((idx % 64) as u64))
        &&& forall|t: int|
            0 <= t < 8 ==> #[trigger] self.hashes[t] == old.hashes[t] ^ key_value(transformed_index(x, y, t), c)
    }

    /// `self` is `old` with the stone (x, y, c) removed: its bit cleared and its
    /// keys xored into every hash.
    pub open spec fn removed_from(&self, old: Board, x: int, y: int, c: int) -> bool {
        let idx = y * 15 + x;
        &&& forall|w: int| 0 <= w < 4 && w != idx / 64 ==> #[trigger] self.occupied[w] == old.occupied[w]
        &&& self.occupied[idx / 64] == old.occupied[idx / 64] & !(1u64 << ((idx % 64) as u64))
        &&& forall|t: int|
            0 <= t < 8 ==> #[trigger] self.hashes[t] == old.hashes[t] ^ key_value(transformed_index(x, y, t), c)
    }

    fn set_bit(&mut self, x: i8, y: i8)
        requires
            on_board(x as int, y as int),
        ensures
            final(self).hashes == old(self).hashes,
            final(self).move_count == old(self).move_count,
            ({
                let idx = y * 15 + x;
                &&& forall|w: int|
                    0 <= w < 4 && w != idx / 64 ==> #[trigger] final(self).occupied[w] == old(self).occupied[w]
                &&& final(self).occupied[idx / 64] == old(self).occupied[idx / 64] | (1u64 << ((idx % 64) as u64))
            }),
    {
        let idx = (y as usize * 15) + x as usize;
        let w = idx / 64;
        let b = (idx % 64) as u64;
        self.occupied[w] = self.occupied[w] | (1u64 << b);
    }

    fn clear_bit(&mut self, x: i8, y: i8)
        requires
            on_board(x as int, y as int),
        ensures
            final(self).hashes == old(self).hashes,
            final(self).move_count == old(self).move_count,
            ({
                let idx = y * 15 + x;
                &&& forall|w: int|
                    0 <= w < 4 && w != idx / 64 ==> #[trigger] final(self).occupied[w] == old(self).occupied[w]
                &&& final(self).occupied[idx / 64] == old(self).occupied[idx / 64] & !(1u64 << ((idx % 64) as u64))
            }),
    {
        let idx = (y as usize * 15) + x as usize;
        let w = idx / 64;
        let b = (idx % 64) as u64;
        self.occupied[w] = self.occupied[w] & !(1u64 << b);
    }
}

/// Taking back a move just made on an empty cell restores the occupancy
/// bits and all eight hashes.
pub proof fn lemma_undo_after_make(b0: Board, b1: Board, b2: Board, x: int, y: int, c: int)
    requires
        on_board(x, y),
        !occupied_bit(b0.occupied@, y * 15 + x),
        b1.placed_from(b0, x, y, c),
        b2.removed_from(b1, x, y, c),
    ensures
        b2.occupied == b0.occupied,
        b2.hashes == b0.hashes,
{
    let idx = y * 15 + x;
    let w = idx / 64;
    let bit = (idx % 64) as u64;
    let o = b0.occupied[w];
    assert((o >> bit) & 1 != 1 && bit < 64 ==> (o | (1u64 << bit)) & !(1u64 << bit) == o) by (bit_vector);
    assert(b2.occupied[w] == o);
    assert forall|v: int| 0 <= v < 4 implies #[trigger] b2.occupied[v] == b0.occupied[v] by {}
    assert(b2.occupied@ =~= b0.occupied@);
    assert forall|t: int| 0 <= t < 8 implies #[trigger] b2.hashes[t] == b0.hashes[t] by {
        let h = b0.hashes[t];
        let k = key_value(transformed_index(x, y, t), c);
        assert((h ^ k) ^ k == h) by (bit_vector);
    }
    assert(b2.hashes@ =~= b0.hashes@);
}

/// Adding a stone to a board that hashes a list of stones gives a board that
/// hashes the list with that stone appended.
pub proof fn lemma_placed_hashes(b0: Board, b1: Board, stones: Seq<Stone>, x: int, y: int, c: int)
    requires
        b0.hashes_of(stones),
        b1.placed_from(b0, x, y, c),
    ensures
        b1.hashes_of(stones.push((x, y, c))),
{
    assert forall|t: int| 0 <= t < 8 implies #[trigger] b1.hashes[t] == hash_of(stones.push((x, y, c)), t) by {
        assert(stones.push((x, y, c)).drop_last() =~= stones);
    }
}

/// Seen through `t`, the image of the stones under `s` hashes as the stones
/// themselves seen through `composition(s, t)`.
pub proof fn lemma_hash_of_transformed(stones: Seq<Stone>, s: int, t: int)
    requires
        0 <= s < 8,
        0 <= t < 8,
        forall|i: int| 0 <= i < stones.len() ==> on_board(#[trigger] stones[i].0, stones[i].1),
    ensures
        hash_of(transformed_stones(stones, s), t) == hash_of(stones, composition(s, t)),
    decreases stones.len(),
{
    if stones.len() > 0 {
        let rest = stones.drop_last();
        assert(transformed_stones(stones, s).drop_last() =~= transformed_stones(rest, s));
        lemma_hash_of_transformed(rest, s, t);
        let st = stones.last();
        assert(on_board(st.0, st.1));
        let p = transform(st.0, st.1, s);
        lemma_transform_on_board(st.0, st.1, s);
        lemma_composition(s, t, st.0, st.1);
        assert(transformed_stones(stones, s).last() == (p.0, p.1, st.2));
        assert(transformed_index(p.0, p.1, t) == transformed_index(st.0, st.1, composition(s, t)));
    }
}

/// Each row of the composition table is a permutation: every symmetry is
/// `composition(s, t)` for some `t`.
proof fn lemma_composition_onto(s: int, u: int)
    requires
        0 <= s < 8,
        0 <= u < 8,
    ensures
        exists|t: int| 0 <= t < 8 && #[trigger] composition(s, t) == u,
{
    let inv: Seq<int> = seq![0, 3, 2, 1, 4, 5, 6, 7];
    let t = composition(inv[s], u);
    assert(composition(s, t) == u);
}

/// The canonical hash is the same for a list of stones and for its image
/// under any symmetry of the board.
pub proof fn lemma_canonical_hash_symmetric(stones: Seq<Stone>, s: int, m: u64)
    requires
        0 <= s < 8,
        forall|i: int| 0 <= i < stones.len() ==> on_board(#[trigger] stones[i].0, stones[i].1),
    ensures
        is_min8(|t: int| hash_of(stones, t), m) <==> is_min8(
            |t: int| hash_of(transformed_stones(stones, s), t),
            m,
        ),
{
    let f = |t: int| hash_of(stones, t);
    let g = |t: int| hash_of(transformed_stones(stones, s), t);
    assert forall|t: int| 0 <= t < 8 implies #[trigger] g(t) == f(composition(s, t)) && 0 <= composition(
        s,
        t,
    ) < 8 by {
        lemma_hash_of_transformed(stones, s, t);
    }
    if is_min8(f, m) {
        let u = choose|u: int| 0 <= u < 8 && #[trigger] f(u) == m;
        lemma_composition_onto(s, u);
        let t = choose|t: int| 0 <= t < 8 && #[trigger] composition(s, t) == u;
        assert(g(t) == m);
        assert forall|t: int| 0 <= t < 8 implies m <= #[trigger] g(t) by {
            assert(g(t) == f(composition(s, t)));
        }
    }
    if is_min8(g, m) {
        let t = choose|t: int| 0 <= t < 8 && #[trigger] g(t) == m;
        assert(f(composition(s, t)) == m);
        assert forall|u: int| 0 <= u < 8 implies m <= #[trigger] f(u) by {
            lemma_composition_onto(s, u);
            let t2 = choose|t2: int| 0 <= t2 < 8 && #[trigger] composition(s, t2) == u;
            assert(g(t2) == f(u));
        }
    }
}


/// The stones moves leave when played in turn from an empty board, black
/// first.
pub open spec fn move_stones(mv: Seq<(int, int)>) -> Seq<Stone> {
    Seq::new(mv.len(), |k: int| (mv[k].0, mv[k].1, k % 2))
}

/// Boards that make the moves in turn, one after another from an empty
/// board, end up hashing the stones of those moves.
pub proof fn lemma_moves_hashes(boards: Seq<Board>, mv: Seq<(int, int)>)
    requires
        boards.len() == mv.len() + 1,
        boards[0].hashes_of(Seq::empty()),
        forall|k: int| 0 <= k < mv.len() ==> #[trigger] boards[k + 1].placed_from(boards[k], mv[k].0, mv[k].1, k % 2),
    ensures
        boards.last().hashes_of(move_stones(mv)),
    decreases mv.len(),
{
    if mv.len() == 0 {
        assert(move_stones(mv) =~= Seq::<Stone>::empty());
    } else {
        let n = mv.len() - 1;
        lemma_moves_hashes(boards.drop_last(), mv.drop_last());
        assert(boards.drop_last().last() == boards[n]);
        assert(boards[n + 1].placed_from(boards[n], mv[n].0, mv[n].1, n % 2));
        lemma_placed_hashes(boards[n], boards[n + 1], move_stones(mv.drop_last()), mv[n].0, mv[n].1, n % 2);
        assert(move_stones(mv.drop_last()).push((mv[n].0, mv[n].1, n % 2)) =~= move_stones(mv));
    }
}

/// Moves played in turn and their image under a symmetry of the board give
/// the same least of the eight hashes.
pub proof fn lemma_moves_symmetric(mv: Seq<(int, int)>, s: int, m: u64)
    requires
        0 <= s < 8,
        forall|k: int| 0 <= k < mv.len() ==> on_board(#[trigger] mv[k].0, mv[k].1),
    ensures
        is_min8(|t: int| hash_of(move_stones(mv), t), m) <==> is_min8(
            |t: int| hash_of(move_stones(mv.map_values(|c: (int, int)| transform(c.0, c.1, s))), t),
            m,
        ),
{
    let st = move_stones(mv);
    assert(move_stones(mv.map_values(|c: (int, int)| transform(c.0, c.1, s))) =~= transformed_stones(st, s));
    lemma_canonical_hash_symmetric(st, s, m);
}

/// Two games played from empty boards, the second making the first's moves
/// seen through a symmetry of the board, end with the same canonical hash
/// (the least of the eight hashes), and an empty board's is 0.
pub proof fn lemma_mirrored_games_hash_alike(a: Seq<Board>, b: Seq<Board>, mv: Seq<(int, int)>, s: int, m: u64)
    requires
        0 <= s < 8,
        forall|k: int| 0 <= k < mv.len() ==> on_board(#[trigger] mv[k].0, mv[k].1),
        a.len() == mv.len() + 1,
        b.len() == mv.len() + 1,
        a[0].hashes_of(Seq::empty()),
        b[0].hashes_of(Seq::empty()),
        forall|k: int| 0 <= k < mv.len() ==> #[trigger] a[k + 1].placed_from(a[k], mv[k].0, mv[k].1, k % 2),
        forall|k: int|
            0 <= k < mv.len() ==> #[trigger] b[k + 1].placed_from(
                b[k],
                transform(mv[k].0, mv[k].1, s).0,
                transform(mv[k].0, mv[k].1, s).1,
                k % 2,
            ),
    ensures
        is_min8(a.last().hash_view(), m) <==> is_min8(b.last().hash_view(), m),
        is_min8(a[0].hash_view(), m) <==> m == 0,
{
    let image = mv.map_values(|c: (int, int)| transform(c.0, c.1, s));
    assert forall|k: int| 0 <= k < image.len() implies #[trigger] b[k + 1].placed_from(b[k], image[k].0, image[k].1, k % 2) by {
        assert(b[k + 1].placed_from(b[k], transform(mv[k].0, mv[k].1, s).0, transform(mv[k].0, mv[k].1, s).1, k % 2));
    }
    lemma_moves_hashes(a, mv);
    lemma_moves_hashes(b, image);
    lemma_moves_symmetric(mv, s, m);
    lemma_min8_same(a.last().hash_view(), |t: int| hash_of(move_stones(mv), t), m);
    lemma_min8_same(b.last().hash_view(), |t: int| hash_of(move_stones(image), t), m);
    lemma_min8_same(a[0].hash_view(), |t: int| 0u64, m);
    if m == 0 {
        assert((|t: int| 0u64)(0) == m);
    }
}

/// `is_min8` looks at the eight symmetries only.
proof fn lemma_min8_same(f: spec_fn(int) -> u64, g: spec_fn(int) -> u64, m: u64)
    requires
        forall|t: int| 0 <= t < 8 ==> #[trigger] f(t) == g(t),
    ensures
        is_min8(f, m) <==> is_min8(g, m),
{
    if is_min8(f, m) {
        let t = choose|t: int| 0 <= t < 8 && #[trigger] f(t) == m;
        assert(g(t) == m);
        assert forall|u: int| 0 <= u < 8 implies m <= #[trigger] g(u) by {
            assert(f(u) == g(u));
        }
    }
    if is_min8(g, m) {
        let t = choose|t: int| 0 <= t < 8 && #[trigger] g(t) == m;
        assert(f(t) == m);
        assert forall|u: int| 0 <= u < 8 implies m <= #[trigger] f(u) by {
            assert(f(u) == g(u));
        }
    }
}

} // verus!
