use renjulibviewer::board::{Board, Player};
use renjulibviewer::engine::hash_board::Board as HashBoard;
use renjulibviewer::engine::keys::{key, KEYS};
use renjulibviewer::engine::node::{RenLibNode, TextPool, NO_NODE, NO_TEXT};
use renjulibviewer::engine::zobrist::Zobrist;

#[test]
fn board_place_undo_redo() {
    let mut b = Board::new();
    assert!(b.place_stone(7, 7));
    assert_eq!(b.grid[112], Some(Player::Black));
    assert_eq!(b.next_player, Player::White);
    assert!(!b.place_stone(7, 7));
    assert!(!b.place_stone(15, 0));
    assert!(b.place_stone(8, 7));
    assert_eq!(b.history, vec![112, 113]);
    b.undo();
    assert_eq!(b.grid[113], None);
    assert_eq!(b.future_history, vec![113]);
    assert_eq!(b.next_player, Player::White);
    b.redo();
    assert_eq!(b.grid[113], Some(Player::White));
    assert_eq!(b.history, vec![112, 113]);
    assert!(b.future_history.is_empty());
}

#[test]
fn board_undo_all_then_redo_all_restores() {
    let mut b = Board::new();
    b.place_stone(7, 7);
    b.place_stone(8, 8);
    b.place_stone(6, 6);
    b.undo_all();
    assert!(b.history.is_empty());
    assert_eq!(b.future_history, vec![96, 128, 112]);
    assert!(b.grid.iter().all(|c| c.is_none()));
    b.redo_all();
    assert_eq!(b.history, vec![112, 128, 96]);
    assert_eq!(b.grid[128], Some(Player::White));
    assert_eq!(b.next_player, Player::White);
}

#[test]
fn placing_a_stone_forgets_moves_taken_back() {
    let mut b = Board::new();
    b.place_stone(7, 7);
    b.undo();
    assert_eq!(b.future_history, vec![112]);
    b.place_stone(0, 0);
    assert!(b.future_history.is_empty());
    assert_eq!(b.history, vec![0]);
}

#[test]
fn key_table_matches_reader() {
    let t = Zobrist::table();
    assert_eq!(t, KEYS);
    assert_eq!(key(0, 0), KEYS[0][0]);
    assert_eq!(key(224, 1), KEYS[224][1]);
    assert_ne!(KEYS[0][0], KEYS[0][1]);
}

#[test]
fn transformed_indices() {
    assert_eq!(Zobrist::get_transformed_idx(7, 7, 5), 112);
    assert_eq!(Zobrist::get_transformed_idx(0, 0, 0), 0);
    let corners: Vec<usize> = (0..8).map(|t| Zobrist::get_transformed_idx(0, 0, t)).collect();
    for c in &corners {
        assert!([0usize, 14, 210, 224].contains(c));
    }
    assert_eq!(Zobrist::get_transformed_idx(-1, 3, 2), 0);
    for t1 in 0..8 {
        assert_eq!(Zobrist::compose_t(t1, 0), t1);
        for t2 in 0..8 {
            let t = Zobrist::compose_t(t1, t2);
            let once = Zobrist::get_transformed_idx(3, 5, t);
            let first = Zobrist::get_transformed_idx(3, 5, t1);
            let twice = Zobrist::get_transformed_idx((first % 15) as i8, (first / 15) as i8, t2);
            assert_eq!(once, twice);
        }
    }
    let tt = Zobrist::transformed_table();
    assert_eq!(tt.len(), 225);
    assert_eq!(tt[112][0], KEYS[112]);
}

#[test]
fn canonical_hash_is_the_same_for_mirrored_positions() {
    let mut a = HashBoard::new();
    a.make_move(7, 7);
    a.make_move(8, 7);
    let mut b = HashBoard::new();
    b.make_move(7, 7);
    b.make_move(7, 8);
    let mut c = HashBoard::new();
    c.make_move(7, 7);
    c.make_move(8, 8);
    assert_eq!(a.get_canonical_hash(), b.get_canonical_hash());
    assert_ne!(a.get_canonical_hash(), c.get_canonical_hash());
    assert_eq!(HashBoard::new().get_canonical_hash(), 0);
}

#[test]
fn undo_move_restores_hashes() {
    let mut a = HashBoard::new();
    a.make_move(7, 7);
    let before = a;
    a.make_move(3, 4);
    assert_ne!(a.hashes, before.hashes);
    a.undo_move(3, 4);
    assert_eq!(a.hashes, before.hashes);
    assert_eq!(a.occupied, before.occupied);
    assert_eq!(a.hashes[0], KEYS[112][0]);
}

#[test]
fn node_fields_pack_and_unpack() {
    let mut n = RenLibNode::new(3, -1, 7, NO_NODE, 2, 99, 12);
    assert_eq!((n.x(), n.y(), n.depth()), (3, -1, 12));
    assert_eq!((n.parent, n.child, n.sibling, n.hash), (7, NO_NODE, 2, 99));
    n.set_x(-2);
    n.set_y(14);
    n.set_depth(200);
    assert_eq!((n.x(), n.y(), n.depth()), (-2, 14, 200));
    assert_eq!(n.parent, 7);
}

#[test]
fn text_pool_stores_each_text_once() {
    let mut pool = TextPool::new();
    let a = pool.get_or_insert(b"alpha");
    let b = pool.get_or_insert(b"beta");
    let a2 = pool.get_or_insert(b"alpha");
    assert_eq!(a, 0);
    assert_eq!(b, 1);
    assert_eq!(a2, a);
    assert_eq!(pool.get(a), Some(&b"alpha"[..]));
    assert_eq!(pool.get(b), Some(&b"beta"[..]));
    assert_eq!(pool.get(2), None);
    assert_eq!(pool.get(NO_TEXT), None);
}

#[test]
fn undo_all_then_redo_all_restores_the_board() {
    let mut b = Board::new();
    assert!(b.place_stone(7, 7));
    assert!(b.place_stone(8, 7));
    assert!(b.place_stone(9, 9));
    let grid = b.grid;
    let history = b.history.clone();
    b.undo_all();
    assert!(b.history.is_empty());
    assert!(b.grid.iter().all(|c| c.is_none()));
    assert_eq!(b.future_history, vec![144, 113, 112]);
    assert_eq!(b.next_player, Player::Black);
    b.redo_all();
    assert_eq!(b.grid, grid);
    assert_eq!(b.history, history);
    assert_eq!(b.next_player, Player::White);
    assert!(b.future_history.is_empty());
}

#[test]
fn transformed_keys_come_from_the_generator() {
    let table = Zobrist::table();
    let tt = Zobrist::transformed_table();
    for i in 0..225usize {
        for t in 0..8usize {
            let j = Zobrist::get_transformed_idx((i % 15) as i8, (i / 15) as i8, t);
            assert_eq!(tt[i][t], table[j]);
        }
        assert_eq!(KEYS[i], table[i]);
    }
}

#[test]
fn text_pool_reuses_a_text_filed_under_its_hash() {
    let mut pool = TextPool::new();
    let a = pool.get_or_insert_hashed(b"alpha", 7);
    let b = pool.get_or_insert_hashed(b"beta", 7);
    assert_eq!((a, b), (0, 1));
    assert_eq!(pool.get_or_insert_hashed(b"alpha", 7), 0);
    assert_eq!(pool.get_or_insert_hashed(b"beta", 7), 1);
    assert_eq!(pool.spans.len(), 2);
    assert_eq!(pool.next_chain, vec![NO_TEXT, 0]);
    let c = pool.get_or_insert_hashed(b"alpha", 8);
    assert_eq!(c, 2);
    assert_eq!(pool.buffer, b"alphabetaalpha".to_vec());
}

#[test]
fn each_symmetry_sends_the_board_onto_itself() {
    for t in 0..8 {
        let mut seen = [false; 225];
        for y in 0..15i8 {
            for x in 0..15i8 {
                let i = Zobrist::get_transformed_idx(x, y, t);
                assert!(i < 225);
                assert!(!seen[i]);
                seen[i] = true;
            }
        }
        assert!(seen.iter().all(|&s| s));
        assert_eq!(Zobrist::get_transformed_idx(7, 7, t), 112);
        assert_eq!(Zobrist::get_transformed_idx(15, 0, t), 0);
    }
    assert_eq!(Zobrist::get_transformed_idx(4, 9, 0), 9 * 15 + 4);
}
