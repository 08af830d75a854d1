use vstd::prelude::*;

verus! {

/// Number of lines (and columns) of a renju board.
pub const SIZE: usize = 15;

/// The two sides of a game.
#[derive(Clone, Copy, PartialEq, Eq, Structural, Debug)]
pub enum Player {
    Black,
    White,
}

/// The side that moves after `p`.
pub open spec fn opponent(p: Player) -> Player {
    match p {
        Player::Black => Player::White,
        Player::White => Player::Black,
    }
}

fn switch(p: Player) -> (q: Player)
    ensures
        q == opponent(p),
{
    match p {
        Player::Black => Player::White,
        Player::White => Player::Black,
    }
}

/// Logical board: the stones on the grid, the side to move, the moves played
/// (oldest first) and the moves taken back (the next one to replay last).
pub struct Board {
    pub grid: [Option<Player>; 225],
    pub next_player: Player,
    pub history: Vec<usize>,
    pub future_history: Vec<usize>,
}

/// Mathematical picture of a [`Board`].
pub struct BoardModel {
    pub grid: Seq<Option<Player>>,
    pub next: Player,
    pub history: Seq<usize>,
    pub future: Seq<usize>,
}

impl View for Board {
    type V = BoardModel;

    open spec fn view(&self) -> BoardModel {
        BoardModel {
            grid: self.grid@,
            next: self.next_player,
            history: self.history@,
            future: self.future_history@,
        }
    }
}

/// Every index kept in a history is a cell of the board.
pub open spec fn cells_only(s: Seq<usize>) -> bool {
    forall|i: int| 0 <= i < s.len() ==> #[trigger] s[i] < 225
}

/// The sequence reversed.
pub open spec fn reversed(s: Seq<usize>) -> Seq<usize> {
    Seq::new(s.len(), |i: int| s[s.len() - 1 - i])
}

/// The side to move after `n` turns from `p`.
pub open spec fn flipped(p: Player, n: nat) -> Player
    decreases n,
{
    if n == 0 {
        p
    } else {
        opponent(flipped(p, (n - 1) as nat))
    }
}

/// The grid after `moves` are played in order from `g`, `next` moving
/// first and the sides alternating.
pub open spec fn replayed_grid(g: Seq<Option<Player>>, next: Player, moves: Seq<usize>) -> Seq<Option<Player>>
    decreases moves.len(),
{
    if moves.len() == 0 {
        g
    } else {
        replayed_grid(g, next, moves.drop_last()).update(moves.last() as int, Some(flipped(next, (moves.len() - 1) as nat)))
    }
}

impl BoardModel {
    /// The grid has one entry per cell and the histories name cells only.
    pub open spec fn wf(self) -> bool {
        &&& self.grid.len() == 225
        &&& cells_only(self.history)
        &&& cells_only(self.future)
    }

    /// Whether a stone can go on (x, y).
    pub open spec fn can_place(self, x: int, y: int) -> bool {
        0 <= x < 15 && 0 <= y < 15 && self.grid[y * 15 + x] == None::<Player>
    }

    /// The board after the side to move puts a stone on the empty cell (x, y).
    pub open spec fn placed(self, x: int, y: int) -> BoardModel {
        BoardModel {
            grid: self.grid.update(y * 15 + x, Some(self.next)),
            next: opponent(self.next),
            history: self.history.push((y * 15 + x) as usize),
            future: Seq::empty(),
        }
    }

    /// The board after the last move is taken back (unchanged without one).
    pub open spec fn undone(self) -> BoardModel {
        if self.history.len() == 0 {
            self
        } else {
            let last = self.history.last();
            BoardModel {
                grid: self.grid.update(last as int, None),
                next: opponent(self.next),
                history: self.history.drop_last(),
                future: self.future.push(last),
            }
        }
    }

    /// The board after the last move taken back is replayed (unchanged without one).
    pub open spec fn redone(self) -> BoardModel {
        if self.future.len() == 0 {
            self
        } else {
            let next = self.future.last();
            BoardModel {
                grid: self.grid.update(next as int, Some(self.next)),
                next: opponent(self.next),
                history: self.history.push(next),
                future: self.future.drop_last(),
            }
        }
    }
}

impl Board {
    /// An empty board with Black to move and no history.
    pub fn new() -> (b: Self)
        ensures
            b@.wf(),
            b@.grid == Seq::new(225, |i: int| None::<Player>),
            b@.next == Player::Black,
            b@.history == Seq::<usize>::empty(),
            b@.future == Seq::<usize>::empty(),
    {
        let b = Board {
            grid: [None; 225],
            next_player: Player::Black,
            history: Vec::new(),
            future_history: Vec::new(),
        };
        assert(b@.grid =~= Seq::new(225, |i: int| None::<Player>));
        b
    }

    /// Places a stone of the side to move on (x, y) when that cell is on the
    /// board and empty; a placed stone clears the moves taken back.
    pub fn place_stone(&mut self, x: usize, y: usize) -> (placed: bool)
        requires
            old(self)@.wf(),
            y * 15 + x <= usize::MAX,
        ensures
            final(self)@.wf(),
            placed == old(self)@.can_place(x as int, y as int),
            placed ==> final(self)@ == old(self)@.placed(x as int, y as int),
            !placed ==> final(self)@ == old(self)@,
    {
        let idx = y * SIZE + x;
        if x < SIZE && y < SIZE && self.grid[idx].is_none() {
            self.grid[idx] = Some(self.next_player);
            self.history.push(idx);
            self.future_history.clear();
            self.next_player = switch(self.next_player);
            return true;
        }
        false
    }

    /// Takes back the last move, if there is one, and keeps it for `redo`.
    pub fn undo(&mut self)
        requires
            old(self)@.wf(),
        ensures
            final(self)@.wf(),
            final(self)@ == old(self)@.undone(),
    {
        if !self.history.is_empty() {
            let last_idx = self.history.pop().unwrap();
            self.grid[last_idx] = None;
            self.future_history.push(last_idx);
            self.next_player = switch(self.next_player);
        }
    }

    /// Replays the last move taken back, if there is one.
    pub fn redo(&mut self)
        requires
            old(self)@.wf(),
        ensures
            final(self)@.wf(),
            final(self)@ == old(self)@.redone(),
    {
        if !self.future_history.is_empty() {
            let next_idx = self.future_history.pop().unwrap();
            self.grid[next_idx] = Some(self.next_player);
            self.history.push(next_idx);
            self.next_player = switch(self.next_player);
        }
    }

    /// Takes back every move: the history becomes empty, the moves taken back
    /// gain the history in reverse order, and the cells of the history empty.
    pub fn undo_all(&mut self)
        requires
            old(self)@.wf(),
        ensures
            final(self)@.wf(),
            final(self)@.history == Seq::<usize>::empty(),
            final(self)@.future == old(self)@.future + reversed(old(self)@.history),
            forall|i: int|
                0 <= i < 225 && !old(self)@.history.contains(i as usize) ==> final(self)@.grid[i]
                    == old(self)@.grid[i],
            forall|i: int|
                0 <= i < 225 && old(self)@.history.contains(i as usize) ==> final(self)@.grid[i]
                    == None::<Player>,
            final(self)@.next == flipped(old(self)@.next, old(self)@.history.len()),
    {
        let ghost h0 = self.history@;
        let ghost f0 = self.future_history@;
        let ghost g0 = self.grid@;
        let ghost p0 = self.next_player;
        while !self.history.is_empty()
            invariant
                self@.wf(),
                self.next_player == flipped(p0, (h0.len() - self.history@.len()) as nat),
                cells_only(h0),
                self.history@.len() <= h0.len(),
                self.history@ == h0.subrange(0, self.history@.len() as int),
                self.future_history@ == f0 + reversed(h0.subrange(self.history@.len() as int, h0.len() as int)),
                forall|i: int|
                    0 <= i < 225 && !h0.subrange(self.history@.len() as int, h0.len() as int).contains(i as usize)
                        ==> self.grid@[i] == g0[i],
                forall|i: int|
                    0 <= i < 225 && h0.subrange(self.history@.len() as int, h0.len() as int).contains(i as usize)
                        ==> self.grid@[i] == None::<Player>,
            decreases self.history@.len(),
        {
            let ghost n = self.history@.len() as int;
            self.undo();
            proof {
                let tail_old = h0.subrange(n, h0.len() as int);
                let tail_new = h0.subrange(n - 1, h0.len() as int);
                assert(tail_new =~= seq![h0[n - 1]] + tail_old);
                assert(reversed(tail_new) =~= reversed(tail_old).push(h0[n - 1]));
                assert forall|i: int| 0 <= i < 225 implies
                    (#[trigger] tail_new.contains(i as usize) <==> (i == h0[n - 1] || tail_old.contains(i as usize))) by {
                    if tail_new.contains(i as usize) {
                        let k = choose|k: int| 0 <= k < tail_new.len() && tail_new[k] == i as usize;
                        if k > 0 {
                            assert(tail_old[k - 1] == i as usize);
                        }
                    }
                    if tail_old.contains(i as usize) {
                        let k = choose|k: int| 0 <= k < tail_old.len() && tail_old[k] == i as usize;
                        assert(tail_new[k + 1] == i as usize);
                    }
                    if i == h0[n - 1] {
                        assert(tail_new[0] == i as usize);
                    }
                }
            }
        }
        proof {
            assert(h0.subrange(0, h0.len() as int) =~= h0);
        }
    }

    /// Replays every move taken back.
    pub fn redo_all(&mut self)
        requires
            old(self)@.wf(),
        ensures
            final(self)@.wf(),
            final(self)@.future == Seq::<usize>::empty(),
            final(self)@.history == old(self)@.history + reversed(old(self)@.future),
            final(self)@.grid == replayed_grid(old(self)@.grid, old(self)@.next, reversed(old(self)@.future)),
            final(self)@.next == flipped(old(self)@.next, old(self)@.future.len()),
    {
        let ghost h0 = self.history@;
        let ghost f0 = self.future_history@;
        let ghost g0 = self.grid@;
        let ghost p0 = self.next_player;
        while !self.future_history.is_empty()
            invariant
                self@.wf(),
                self.future_history@.len() <= f0.len(),
                self.future_history@ == f0.subrange(0, self.future_history@.len() as int),
                self.history@ == h0 + reversed(f0.subrange(self.future_history@.len() as int, f0.len() as int)),
                self.grid@ == replayed_grid(g0, p0, reversed(f0.subrange(self.future_history@.len() as int, f0.len() as int))),
                self.next_player == flipped(p0, (f0.len() - self.future_history@.len()) as nat),
            decreases self.future_history@.len(),
        {
            let ghost n = self.future_history@.len() as int;
            self.redo();
            proof {
                let tail_old = f0.subrange(n, f0.len() as int);
                let tail_new = f0.subrange(n - 1, f0.len() as int);
                assert(tail_new =~= seq![f0[n - 1]] + tail_old);
                assert(reversed(tail_new) =~= reversed(tail_old).push(f0[n - 1]));
                assert(reversed(tail_new).drop_last() =~= reversed(tail_old));
                assert(reversed(tail_new).len() - 1 == f0.len() - n);
            }
        }
        proof {
            assert(f0.subrange(0, f0.len() as int) =~= f0);
        }
    }
}

/// A board as moves from the empty board leave it: its grid is the history
/// replayed from Black, the side to move follows the history's length, and
/// nothing is kept to replay.
pub open spec fn played_out(b: BoardModel) -> bool {
    &&& b.wf()
    &&& b.grid == replayed_grid(Seq::new(225, |i: int| None::<Player>), Player::Black, b.history)
    &&& b.next == flipped(Player::Black, b.history.len())
    &&& b.future.len() == 0
}

proof fn lemma_flipped_parity(p: Player, n: nat)
    ensures
        flipped(p, n) == (if n % 2 == 0 { p } else { opponent(p) }),
    decreases n,
{
    if n > 0 {
        lemma_flipped_parity(p, (n - 1) as nat);
    }
}

proof fn lemma_flipped_twice(p: Player, n: nat)
    ensures
        flipped(flipped(p, n), n) == p,
{
    lemma_flipped_parity(p, n);
    lemma_flipped_parity(flipped(p, n), n);
}

proof fn lemma_flipped_add(p: Player, a: nat, b: nat)
    ensures
        flipped(flipped(p, a), b) == flipped(p, a + b),
    decreases b,
{
    if b > 0 {
        lemma_flipped_add(p, a, (b - 1) as nat);
    }
}

proof fn lemma_replayed_len(g: Seq<Option<Player>>, next: Player, moves: Seq<usize>)
    requires
        cells_only(moves),
        g.len() == 225,
    ensures
        replayed_grid(g, next, moves).len() == 225,
        forall|i: int| 0 <= i < 225 && !moves.contains(i as usize) ==> #[trigger] replayed_grid(g, next, moves)[i] == g[i],
    decreases moves.len(),
{
    if moves.len() > 0 {
        lemma_replayed_len(g, next, moves.drop_last());
        assert forall|i: int| 0 <= i < 225 && !moves.contains(i as usize) implies #[trigger] replayed_grid(g, next, moves)[i] == g[i] by {
            assert(moves[moves.len() - 1] == moves.last());
            if moves.drop_last().contains(i as usize) {
                let k = choose|k: int| 0 <= k < moves.drop_last().len() && moves.drop_last()[k] == i as usize;
                assert(moves[k] == i as usize);
            }
        }
    }
}

proof fn lemma_replayed_same(g1: Seq<Option<Player>>, g2: Seq<Option<Player>>, next: Player, moves: Seq<usize>)
    requires
        g1.len() == 225,
        g2.len() == 225,
        cells_only(moves),
        forall|i: int| 0 <= i < 225 && !moves.contains(i as usize) ==> #[trigger] g1[i] == g2[i],
    ensures
        replayed_grid(g1, next, moves) == replayed_grid(g2, next, moves),
{
    lemma_replayed_len(g1, next, moves);
    lemma_replayed_len(g2, next, moves);
    assert forall|i: int| 0 <= i < 225 implies #[trigger] replayed_grid(g1, next, moves)[i] == replayed_grid(g2, next, moves)[i] by {
        if moves.contains(i as usize) {
            lemma_replayed_at(g1, g2, next, moves, i);
        }
    }
    assert(replayed_grid(g1, next, moves) =~= replayed_grid(g2, next, moves));
}

proof fn lemma_replayed_at(g1: Seq<Option<Player>>, g2: Seq<Option<Player>>, next: Player, moves: Seq<usize>, i: int)
    requires
        moves.contains(i as usize),
        0 <= i < 225,
        g1.len() == 225,
        g2.len() == 225,
        cells_only(moves),
    ensures
        replayed_grid(g1, next, moves)[i] == replayed_grid(g2, next, moves)[i],
    decreases moves.len(),
{
    lemma_replayed_len(g1, next, moves.drop_last());
    lemma_replayed_len(g2, next, moves.drop_last());
    assert(moves[moves.len() - 1] == moves.last());
    if moves.last() != i as usize {
        let k = choose|k: int| 0 <= k < moves.len() && moves[k] == i as usize;
        assert(k != moves.len() - 1);
        assert(moves.drop_last()[k] == i as usize);
        lemma_replayed_at(g1, g2, next, moves.drop_last(), i);
    }
}

/// Taking every move back and replaying them all gives a board played out
/// from the empty board back unchanged.
pub proof fn lemma_redo_all_after_undo_all(b: BoardModel, b1: BoardModel, b2: BoardModel)
    requires
        played_out(b),
        b1.wf(),
        b1.history == Seq::<usize>::empty(),
        b1.future == b.future + reversed(b.history),
        forall|i: int| 0 <= i < 225 && !b.history.contains(i as usize) ==> b1.grid[i] == b.grid[i],
        forall|i: int| 0 <= i < 225 && b.history.contains(i as usize) ==> b1.grid[i] == None::<Player>,
        b1.next == flipped(b.next, b.history.len()),
        b2.history == b1.history + reversed(b1.future),
        b2.future == Seq::<usize>::empty(),
        b2.grid == replayed_grid(b1.grid, b1.next, reversed(b1.future)),
        b2.next == flipped(b1.next, b1.future.len()),
    ensures
        b2 == b,
{
    let empty = Seq::new(225, |i: int| None::<Player>);
    let h = b.history;
    assert(b.future + reversed(h) =~= reversed(h));
    assert(reversed(reversed(h)) =~= h);
    assert(b2.history =~= h);
    lemma_flipped_twice(Player::Black, h.len());
    assert(b1.next == Player::Black);
    lemma_replayed_len(empty, Player::Black, h);
    assert forall|i: int| 0 <= i < 225 && !h.contains(i as usize) implies #[trigger] b1.grid[i] == empty[i] by {
        assert(b.grid[i] == empty[i]);
    }
    lemma_replayed_same(b1.grid, empty, Player::Black, h);
    assert(b2.grid == b.grid);
    assert(b2.future =~= b.future);
    assert(b2.next == b.next);
}

/// Replaying a move just taken back gives the board back, when the last
/// stone played belongs to the side that did not move next.
pub proof fn lemma_redo_after_undo(b: BoardModel)
    requires
        b.wf(),
        b.history.len() > 0,
        b.grid[b.history.last() as int] == Some(opponent(b.next)),
    ensures
        b.undone().redone() == b,
{
    let last = b.history.last();
    assert(b.undone().redone().grid =~= b.grid);
    assert(b.undone().redone().history =~= b.history);
    assert(b.undone().redone().future =~= b.future);
    assert(opponent(opponent(b.next)) == b.next);
}

/// Taking back a move just replayed gives the board back, when the cell of
/// that move is empty.
pub proof fn lemma_undo_after_redo(b: BoardModel)
    requires
        b.wf(),
        b.future.len() > 0,
        b.grid[b.future.last() as int] == None::<Player>,
    ensures
        b.redone().undone() == b,
{
    assert(b.redone().undone().grid =~= b.grid);
    assert(b.redone().undone().history =~= b.history);
    assert(b.redone().undone().future =~= b.future);
    assert(opponent(opponent(b.next)) == b.next);
}

/// Taking back a stone just placed restores the grid, the side to move and
/// the history, and leaves that one move to replay.
pub proof fn lemma_undo_after_place(b: BoardModel, x: int, y: int)
    requires
        b.wf(),
        b.can_place(x, y),
    ensures
        b.placed(x, y).undone().grid == b.grid,
        b.placed(x, y).undone().next == b.next,
        b.placed(x, y).undone().history == b.history,
        b.placed(x, y).undone().future == seq![(y * 15 + x) as usize],
{
    assert(b.placed(x, y).undone().grid =~= b.grid);
    assert(b.placed(x, y).undone().history =~= b.history);
    assert(b.placed(x, y).undone().future =~= seq![(y * 15 + x) as usize]);
    assert(opponent(opponent(b.next)) == b.next);
}

} // verus!
