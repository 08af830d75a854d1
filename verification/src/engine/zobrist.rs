use vstd::prelude::*;
use crate::engine::keys::{key, key_value, lemma_keys_generated};

verus! {

/// Seed of the generator that fills the key table.
pub const KEY_SEED: u64 = 0x123456789ABCDEF0;

/// Multiplier of the generator that fills the key table.
pub const KEY_MULTIPLIER: u64 = 6364136223846793005;

/// One step of the generator: `v * KEY_MULTIPLIER + 1` modulo 2^64.
pub open spec fn lcg_step(v: u64) -> u64 {
    ((v as nat * 6364136223846793005nat + 1) % 0x1_0000_0000_0000_0000nat) as u64
}

/// The generator's value after `n` steps from the seed.
pub open spec fn lcg_key(n: nat) -> u64
    decreases n,
{
    if n == 0 {
        0x123456789ABCDEF0u64
    } else {
        lcg_step(lcg_key((n - 1) as nat))
    }
}



/// Image of (x, y) under symmetry `t` of the board (0 identity, 1..3 the
/// rotations, 4..7 the reflections), as (column, row).
pub open spec fn transform(x: int, y: int, t: int) -> (int, int) {
    if t == 0 {
        (x, y)
    } else if t == 1 {
        (7 + (y - 7), 7 - (x - 7))
    } else if t == 2 {
        (7 - (x - 7), 7 - (y - 7))
    } else if t == 3 {
        (7 - (y - 7), 7 + (x - 7))
    } else if t == 4 {
        (x, 7 - (y - 7))
    } else if t == 5 {
        (7 + (y - 7), 7 + (x - 7))
    } else if t == 6 {
        (7 - (x - 7), 7 + (y - 7))
    } else {
        (7 - (y - 7), 7 - (x - 7))
    }
}

/// Whether (x, y) is a cell of the board.
pub open spec fn on_board(x: int, y: int) -> bool {
    0 <= x < 15 && 0 <= y < 15
}

/// Cell index of the image of (x, y) under symmetry `t`; 0 off the board.
pub open spec fn transformed_index(x: int, y: int, t: int) -> int {
    if !on_board(x, y) {
        0
    } else {
        transform(x, y, t).1 * 15 + transform(x, y, t).0
    }
}

/// Each symmetry maps the board onto itself.
pub proof fn lemma_transform_on_board(x: int, y: int, t: int)
    requires
        on_board(x, y),
        0 <= t < 8,
    ensures
        on_board(transform(x, y, t).0, transform(x, y, t).1),
        0 <= transformed_index(x, y, t) < 225,
{
}

/// The transformed table holds the generated keys: its entry for cell `i`,
/// symmetry `t` and colour `c` (a key of the image cell) is the entry of
/// `Zobrist::table` for the image cell and `c`.
pub proof fn lemma_transformed_keys_are_table_keys()
    ensures
        forall|i: int, t: int, c: int|
            0 <= i < 225 && 0 <= t < 8 && 0 <= c < 2 ==> #[trigger] key_value(transformed_index(i % 15, i / 15, t), c)
                == lcg_key((2 * transformed_index(i % 15, i / 15, t) + c + 1) as nat),
{
    lemma_keys_generated();
    assert forall|i: int, t: int, c: int|
        0 <= i < 225 && 0 <= t < 8 && 0 <= c < 2 implies #[trigger] key_value(transformed_index(i % 15, i / 15, t), c)
            == lcg_key((2 * transformed_index(i % 15, i / 15, t) + c + 1) as nat) by {
        lemma_transform_on_board(i % 15, i / 15, t);
        let k = transformed_index(i % 15, i / 15, t);
        assert(0 <= k < 225);
        assert(key_value(k, c) == lcg_key((2 * k + c + 1) as nat));
    }
}

/// The symmetry that undoes symmetry `t` (the two quarter turns swap).
pub open spec fn inverse_t(t: int) -> int {
    if t == 1 {
        3
    } else if t == 3 {
        1
    } else {
        t
    }
}

/// The cell that symmetry `t` sends to cell index `i`.
pub open spec fn preimage(i: int, t: int) -> (int, int) {
    transform(i % 15, i / 15, inverse_t(t))
}

/// Each symmetry sends the cells of the board one to one onto the cells
/// (the image of the image under the undoing symmetry is the cell itself),
/// keeps the centre, the identity keeps every cell, and a point off the
/// board gives 0.
pub proof fn lemma_transformed_index_bijective(t: int)
    requires
        0 <= t < 8,
    ensures
        forall|x1: int, y1: int, x2: int, y2: int|
            on_board(x1, y1) && on_board(x2, y2) && #[trigger] transformed_index(x1, y1, t) == #[trigger] transformed_index(x2, y2, t)
                ==> x1 == x2 && y1 == y2,
        forall|i: int|
            #![trigger preimage(i, t)]
            0 <= i < 225 ==> on_board(preimage(i, t).0, preimage(i, t).1) && transformed_index(
                preimage(i, t).0,
                preimage(i, t).1,
                t,
            ) == i,
        forall|x: int, y: int| on_board(x, y) ==> 0 <= #[trigger] transformed_index(x, y, t) < 225,
        transformed_index(7, 7, t) == 112,
        forall|x: int, y: int| on_board(x, y) ==> #[trigger] transformed_index(x, y, 0) == y * 15 + x,
        forall|x: int, y: int| !on_board(x, y) ==> #[trigger] transformed_index(x, y, t) == 0,
{
    assert forall|x1: int, y1: int, x2: int, y2: int|
        on_board(x1, y1) && on_board(x2, y2) && #[trigger] transformed_index(x1, y1, t) == #[trigger] transformed_index(x2, y2, t)
            implies x1 == x2 && y1 == y2 by {
        lemma_transform_on_board(x1, y1, t);
        lemma_transform_on_board(x2, y2, t);
        let a = transform(x1, y1, t);
        let b = transform(x2, y2, t);
        assert(a.1 * 15 + a.0 == b.1 * 15 + b.0);
        assert(a.1 == b.1 && a.0 == b.0) by (nonlinear_arith)
            requires
                a.1 * 15 + a.0 == b.1 * 15 + b.0,
                0 <= a.0 < 15,
                0 <= b.0 < 15,
        ;
    }
    assert forall|i: int|
        #![trigger preimage(i, t)]
        0 <= i < 225 implies on_board(preimage(i, t).0, preimage(i, t).1) && transformed_index(
            preimage(i, t).0,
            preimage(i, t).1,
            t,
        ) == i by {
        let x = i % 15;
        let y = i / 15;
        assert(on_board(x, y));
        lemma_transform_on_board(x, y, inverse_t(t));
        assert(y * 15 + x == i);
    }
    assert forall|x: int, y: int| on_board(x, y) implies 0 <= #[trigger] transformed_index(x, y, t) < 225 by {
        lemma_transform_on_board(x, y, t);
    }
}

/// Composition table of the symmetries: the symmetry that acts as `t1` then `t2`.
pub open spec fn composition(t1: int, t2: int) -> int {
    let row: Seq<int> = if t1 == 0 {
        seq![0, 1, 2, 3, 4, 5, 6, 7]
    } else if t1 == 1 {
        seq![1, 2, 3, 0, 5, 6, 7, 4]
    } else if t1 == 2 {
        seq![2, 3, 0, 1, 6, 7, 4, 5]
    } else if t1 == 3 {
        seq![3, 0, 1, 2, 7, 4, 5, 6]
    } else if t1 == 4 {
        seq![4, 7, 6, 5, 0, 3, 2, 1]
    } else if t1 == 5 {
        seq![5, 4, 7, 6, 1, 0, 3, 2]
    } else if t1 == 6 {
        seq![6, 5, 4, 7, 2, 1, 0, 3]
    } else {
        seq![7, 6, 5, 4, 3, 2, 1, 0]
    };
    row[t2]
}

/// Applying `t1` and then `t2` moves every point as `composition(t1, t2)` does.
pub proof fn lemma_composition(t1: int, t2: int, x: int, y: int)
    requires
        0 <= t1 < 8,
        0 <= t2 < 8,
    ensures
        0 <= composition(t1, t2) < 8,
        transform(transform(x, y, t1).0, transform(x, y, t1).1, t2) == transform(
            x,
            y,
            composition(t1, t2),
        ),
{
}

/// The eight symmetries send (1, 2) to eight different cells.
proof fn lemma_probe_separates(t: int, s: int)
    requires
        0 <= t < 8,
        0 <= s < 8,
        transform(1, 2, t) == transform(1, 2, s),
    ensures
        t == s,
{
}

/// A symmetry that agrees with `t1` followed by `t2` on (1, 2) agrees with
/// it everywhere.
proof fn lemma_compose_result(t1: int, t2: int, s: int)
    requires
        0 <= t1 < 8,
        0 <= t2 < 8,
        0 <= s < 8,
        transformed_index(1, 2, s) == transformed_index(transform(1, 2, t1).0, transform(1, 2, t1).1, t2),
    ensures
        forall|x: int, y: int|
            #![trigger transform(x, y, s)]
            on_board(x, y) ==> transform(x, y, s) == transform(transform(x, y, t1).0, transform(x, y, t1).1, t2),
{
    let c = composition(t1, t2);
    lemma_composition(t1, t2, 1, 2);
    let p = transform(1, 2, t1);
    lemma_transform_on_board(1, 2, t1);
    lemma_transform_on_board(1, 2, s);
    lemma_transform_on_board(p.0, p.1, t2);
    let a = transform(1, 2, s);
    let b = transform(1, 2, c);
    assert(a.1 * 15 + a.0 == b.1 * 15 + b.0);
    assert(a == b);
    lemma_probe_separates(s, c);
    assert forall|x: int, y: int| on_board(x, y) implies #[trigger] transform(x, y, s) == transform(
        transform(x, y, t1).0,
        transform(x, y, t1).1,
        t2,
    ) by {
        lemma_composition(t1, t2, x, y);
    }
}

/// Some symmetry agrees with `t1` followed by `t2` on (1, 2).
proof fn lemma_compose_exists(t1: int, t2: int)
    requires
        0 <= t1 < 8,
        0 <= t2 < 8,
    ensures
        exists|s: int| 0 <= s < 8 && transformed_index(1, 2, s) == transformed_index(
            transform(1, 2, t1).0,
            transform(1, 2, t1).1,
            t2,
        ),
{
    let c = composition(t1, t2);
    lemma_composition(t1, t2, 1, 2);
    lemma_transform_on_board(1, 2, t1);
    assert(transformed_index(1, 2, c) == transformed_index(transform(1, 2, t1).0, transform(1, 2, t1).1, t2));
}

/// Zobrist tables and the symmetries of the board.
#[derive(Clone, Copy)]
pub struct Zobrist;

/// One step of the generator.
fn next_key(v: u64) -> (r: u64)
    ensures
        r == lcg_step(v),
{
    let r = v.wrapping_mul(6364136223846793005).wrapping_add(1);
    proof {
        let m = 0x1_0000_0000_0000_0000nat;
        let p = (v as nat) * 6364136223846793005nat;
        assert((p % m + 1) % m == (p + 1) % m) by (nonlinear_arith)
            requires
                m == 0x1_0000_0000_0000_0000nat,
        ;
    }
    r
}

impl Zobrist {
    /// The key table: entry [i][j] is the generator value after `2 * i + j + 1` steps.
    pub fn table() -> (t: [[u64; 2]; 225])
        ensures
            forall|i: int, j: int|
                0 <= i < 225 && 0 <= j < 2 ==> #[trigger] t[i][j] == lcg_key((2 * i + j + 1) as nat),
    {
        let mut t = [[0u64; 2]; 225];
        let mut val: u64 = 0x123456789ABCDEF0;
        let mut i: usize = 0;
        while i < 225
            invariant
                i <= 225,
                val == lcg_key((2 * i) as nat),
                forall|a: int, b: int|
                    0 <= a < i && 0 <= b < 2 ==> #[trigger] t[a][b] == lcg_key((2 * a + b + 1) as nat),
            decreases 225 - i,
        {
            let mut j: usize = 0;
            let mut row = [0u64; 2];
            while j < 2
                invariant
                    i < 225,
                    j <= 2,
                    val == lcg_key((2 * i + j) as nat),
                    forall|b: int| 0 <= b < j ==> #[trigger] row[b] == lcg_key((2 * i + b + 1) as nat),
                decreases 2 - j,
            {
                val = next_key(val);
                row[j] = val;
                j += 1;
            }
            t[i] = row;
            i += 1;
        }
        t
    }

    /// Cell index (`row * 15 + column`) of the image of (x, y) under symmetry
    /// `t`; 0 when (x, y) is off the board.
    pub fn get_transformed_idx(x: i8, y: i8, t: usize) -> (r: usize)
        requires
            on_board(x as int, y as int) ==> t < 8,
        ensures
            r == transformed_index(x as int, y as int, t as int),
            r < 225,
    {
        if x < 0 || y < 0 || x > 14 || y > 14 {
            return 0;
        }
        let cx: i8 = 7;
        let cy: i8 = 7;
        let (tx, ty) = if t == 0 {
            (x, y)
        } else if t == 1 {
            (cx + (y - cy), cy - (x - cx))
        } else if t == 2 {
            (cx - (x - cx), cy - (y - cy))
        } else if t == 3 {
            (cx - (y - cy), cy + (x - cx))
        } else if t == 4 {
            (x, cy - (y - cy))
        } else if t == 5 {
            (cx + (y - cy), cy + (x - cx))
        } else if t == 6 {
            (cx - (x - cx), cy + (y - cy))
        } else {
            (cx - (y - cy), cy - (x - cx))
        };
        (ty as usize * 15) + tx as usize
    }

    /// The symmetry that acts as `t1` followed by `t2`.
    pub fn compose_t(t1: usize, t2: usize) -> (r: usize)
        requires
            t1 < 8,
            t2 < 8,
        ensures
            r < 8,
            forall|x: int, y: int|
                #![trigger transform(x, y, r as int)]
                on_board(x, y) ==> transform(x, y, r as int) == transform(
                    transform(x, y, t1 as int).0,
                    transform(x, y, t1 as int).1,
                    t2 as int,
                ),
    {
        let pt1 = Self::get_transformed_idx(1, 2, t1);
        proof {
            lemma_transform_on_board(1, 2, t1 as int);
        }
        let pt2 = Self::get_transformed_idx((pt1 % 15) as i8, (pt1 / 15) as i8, t2);
        let ghost p = transform(1, 2, t1 as int);
        proof {
            assert(pt1 % 15 == p.0 && pt1 / 15 == p.1);
        }
        let mut t: usize = 0;
        while t < 8
            invariant
                t1 < 8,
                t2 < 8,
                t <= 8,
                p == transform(1, 2, t1 as int),
                pt2 == transformed_index(p.0, p.1, t2 as int),
                forall|s: int| 0 <= s < t ==> transformed_index(1, 2, s) != pt2,
            decreases 8 - t,
        {
            if Self::get_transformed_idx(1, 2, t) == pt2 {
                proof {
                    lemma_compose_result(t1 as int, t2 as int, t as int);
                }
                return t;
            }
            t += 1;
        }
        proof {
            lemma_compose_exists(t1 as int, t2 as int);
        }
        0
    }

    /// For each cell and symmetry, the keys of the image cell:
    /// entry [y * 15 + x][t][c] is `KEYS[transformed_index(x, y, t)][c]`.
    pub fn transformed_table() -> (tt: Vec<[[u64; 2]; 8]>)
        ensures
            tt@.len() == 225,
            forall|idx: int, t: int, c: int|
                0 <= idx < 225 && 0 <= t < 8 && 0 <= c < 2 ==> #[trigger] tt@[idx][t][c] == key_value(transformed_index(
                    idx % 15,
                    idx / 15,
                    t,
                ), c),
    {
        let mut tt: Vec<[[u64; 2]; 8]> = Vec::new();
        let mut idx: usize = 0;
        while idx < 225
            invariant
                idx <= 225,
                tt@.len() == idx,
                forall|i: int, t: int, c: int|
                    0 <= i < idx && 0 <= t < 8 && 0 <= c < 2 ==> #[trigger] tt@[i][t][c] == key_value(transformed_index(
                        i % 15,
                        i / 15,
                        t,
                    ), c),
            decreases 225 - idx,
        {
            let x = (idx % 15) as i8;
            let y = (idx / 15) as i8;
            let mut cell = [[0u64; 2]; 8];
            let mut t: usize = 0;
            while t < 8
                invariant
                    idx < 225,
                    x == idx % 15,
                    y == idx / 15,
                    t <= 8,
                    forall|s: int, c: int|
                        0 <= s < t && 0 <= c < 2 ==> #[trigger] cell[s][c] == key_value(transformed_index(
                            x as int,
                            y as int,
                            s,
                        ), c),
                decreases 8 - t,
            {
                let t_idx = Self::get_transformed_idx(x, y, t);
                cell[t] = [key(t_idx, 0), key(t_idx, 1)];
                t += 1;
            }
            tt.push(cell);
            idx += 1;
        }
        tt
    }
}

} // verus!
