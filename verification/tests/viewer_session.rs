use renjulibviewer::board::Player;
use renjulibviewer::engine::hash_board::Board as HashBoard;
use renjulibviewer::engine::node::{NO_NODE, NO_TEXT};
use renjulibviewer::session::RenjuApp;
use renjulibviewer::setting::TextEncoding;
use renjulibviewer::vcf::solver::{Move, SearchMode, SolveOutcome, BLACK, WHITE};

fn fresh() -> RenjuApp {
    RenjuApp::new_with_settings(TextEncoding::UTF8, 1_000)
}

#[test]
fn new_viewer_has_only_a_root() {
    let app = fresh();
    let nodes = app.lib_nodes.as_ref().unwrap();
    assert_eq!(nodes.len(), 1);
    assert_eq!((nodes[0].x(), nodes[0].y(), nodes[0].child), (-1, -1, NO_NODE));
    assert_eq!(app.current_node_idx, Some(0));
    assert_eq!(app.get_current_node(), Some(0));
    assert_eq!(app.hash_table.as_ref().unwrap().get(&0), Some(&0));
}

#[test]
fn playing_new_moves_grows_the_tree() {
    let mut app = fresh();
    app.play_move(7, 7);
    app.play_move(8, 7);
    let nodes = app.lib_nodes.as_ref().unwrap();
    assert_eq!(nodes.len(), 3);
    assert_eq!((nodes[1].x(), nodes[1].y(), nodes[1].parent, nodes[1].depth()), (7, 7, 0, 1));
    assert_eq!((nodes[2].x(), nodes[2].y(), nodes[2].parent, nodes[2].depth()), (8, 7, 1, 2));
    assert_eq!(nodes[0].child, 1);
    assert_eq!(nodes[1].child, 2);
    let mut h = HashBoard::new();
    h.make_move(7, 7);
    h.make_move(8, 7);
    assert_eq!(nodes[2].hash, h.get_canonical_hash());
    assert_eq!(app.hash_table.as_ref().unwrap().get(&h.get_canonical_hash()), Some(&2));
    assert_eq!(app.current_node_idx, Some(2));
    assert_eq!(app.board.grid[113], Some(Player::White));
}

#[test]
fn playing_a_known_move_follows_the_tree() {
    let mut app = fresh();
    app.play_move(7, 7);
    app.play_move(8, 7);
    app.reset_to_root();
    assert_eq!(app.current_node_idx, Some(0));
    assert!(app.board.history.is_empty());
    app.play_move(7, 7);
    assert_eq!(app.current_node_idx, Some(1));
    app.play_move(6, 6);
    let nodes = app.lib_nodes.as_ref().unwrap();
    assert_eq!(nodes.len(), 4);
    assert_eq!(nodes[1].child, 3);
    assert_eq!(nodes[3].sibling, 2);
    app.play_move(6, 6);
    assert_eq!(app.current_node_idx, Some(3));
    assert_eq!(app.lib_nodes.as_ref().unwrap().len(), 4);
}

#[test]
fn stepping_forward_replays_then_follows_single_children() {
    let mut app = fresh();
    app.play_move(7, 7);
    app.play_move(8, 7);
    app.play_move(9, 7);
    app.reset_to_root();
    assert!(app.step_forward());
    assert_eq!(app.current_node_idx, Some(1));
    assert_eq!(app.board.history, vec![112]);
    assert!(app.step_forward());
    assert!(app.step_forward());
    assert_eq!(app.current_node_idx, Some(3));
    assert!(!app.step_forward());
    app.board.undo();
    app.board.undo();
    app.current_node_idx = Some(1);
    assert!(app.step_forward());
    assert_eq!(app.current_node_idx, Some(2));
    assert_eq!(app.board.history, vec![112, 113]);
}

#[test]
fn branch_deletion_removes_the_subtree() {
    let mut app = fresh();
    app.play_move(7, 7);
    app.play_move(8, 7);
    app.play_move(9, 7);
    app.reset_to_root();
    app.play_move(7, 7);
    app.play_move(6, 6);
    app.play_move(8, 7);
    // nodes: 1 h8, 2 i8, 3 j8 (under 2), 4 g9 (under 1), 5 i8 after g9
    app.node_to_delete = Some(2);
    app.delete_current_branch();
    assert_eq!(app.node_to_delete, None);
    let nodes = app.lib_nodes.as_ref().unwrap();
    assert_eq!((nodes[2].x(), nodes[2].y()), (-2, -2));
    assert_eq!((nodes[3].x(), nodes[3].y()), (-2, -2));
    assert_eq!((nodes[4].x(), nodes[4].y()), (6, 6));
    assert_eq!(nodes[4].sibling, NO_NODE);
    assert_eq!(nodes[1].child, 4);
    let mut h = HashBoard::new();
    h.make_move(7, 7);
    h.make_move(8, 7);
    h.make_move(9, 7);
    assert_eq!(app.hash_table.as_ref().unwrap().get(&h.get_canonical_hash()), None);
    assert_eq!(app.current_node_idx, Some(5));
    assert_eq!(app.board.history.len(), 3);
}

#[test]
fn deleting_the_node_shown_steps_back() {
    let mut app = fresh();
    app.play_move(7, 7);
    app.play_move(8, 7);
    app.node_to_delete = Some(2);
    app.delete_current_branch();
    assert_eq!(app.current_node_idx, Some(1));
    assert_eq!(app.board.history, vec![112]);
    assert_eq!(app.lib_nodes.as_ref().unwrap()[1].child, NO_NODE);
    app.node_to_delete = Some(0);
    app.delete_current_branch();
    assert_eq!(app.lib_nodes.as_ref().unwrap()[0].x(), -1);
}

#[test]
fn branch_extraction_keeps_path_and_descendants() {
    let mut app = fresh();
    app.play_move(7, 7);
    app.play_move(8, 7);
    app.play_move(9, 7);
    app.reset_to_root();
    app.play_move(7, 7);
    app.play_move(6, 6);
    app.reset_to_root();
    app.play_move(7, 7);
    app.play_move(8, 7);
    // shown: node 2 (i8); 3 below it, 4 a sibling branch
    let branch = app.get_branch_nodes().unwrap();
    assert_eq!(branch.len(), 5);
    assert_eq!(branch[0].x(), -1);
    assert_eq!((branch[1].x(), branch[1].y()), (7, 7));
    assert_eq!((branch[2].x(), branch[2].y()), (8, 7));
    assert_eq!((branch[3].x(), branch[3].y()), (9, 7));
    assert_eq!((branch[4].x(), branch[4].y()), (-2, -2));
    assert_eq!(branch[4].parent, 1);
}

#[test]
fn subtree_sizes() {
    let mut app = fresh();
    app.play_move(7, 7);
    app.play_move(8, 7);
    app.play_move(9, 7);
    app.reset_to_root();
    app.play_move(7, 7);
    app.play_move(6, 6);
    assert_eq!(app.get_subtree_size(0), 4);
    assert_eq!(app.get_subtree_size(1), 3);
    assert_eq!(app.get_subtree_size(3), 0);
}

#[test]
fn text_ids_read_back_what_was_stored() {
    let mut app = fresh();
    assert_eq!(app.get_comment_id(5), NO_TEXT);
    app.set_comment_id(5, 12);
    assert_eq!(app.get_comment_id(5), 12);
    assert_eq!(app.get_text_id(5), NO_TEXT);
    app.set_text_id(5, 7);
    assert_eq!(app.get_text_id(5), 7);
    assert_eq!(app.get_comment_id(5), 12);
    assert_eq!(app.node_texts.as_ref().unwrap().len(), 6);
    assert_eq!(app.node_texts.as_ref().unwrap()[2], 0xFFFF_FFFF);
    app.set_comment_id(5, 0x12345);
    assert_eq!(app.get_comment_id(5), NO_TEXT);
    assert_eq!(app.get_text_id(5), 7);
}

#[test]
fn texts_decode_from_the_pool() {
    let mut app = fresh();
    let id = app.text_pool.as_mut().unwrap().get_or_insert("énoncé".as_bytes());
    app.set_text_id(0, id);
    assert_eq!(app.decode_text(0), Some("énoncé".to_string()));
    assert_eq!(app.decode_comment(0), None);
    app.set_comment_id(1, 40);
    assert_eq!(app.decode_comment(1), None);
}

#[test]
fn vcf_board_codes() {
    let mut app = fresh();
    app.play_move(7, 7);
    app.play_move(8, 7);
    let b = app.current_vcf_board();
    assert_eq!(b[112], BLACK);
    assert_eq!(b[113], WHITE);
    assert_eq!(b.iter().filter(|&&c| c != 0).count(), 2);
}

#[test]
fn starting_a_search_reports_what_runs() {
    let mut app = fresh();
    app.play_move(7, 7);
    let req = app.start_vcf_search(SearchMode::Long, 0, 5).unwrap();
    assert_eq!(req.turn, WHITE);
    assert_eq!(req.depth, 1);
    assert_eq!(req.timeout_secs, 5);
    assert_eq!(req.mode, SearchMode::Long);
    assert_eq!(req.board[112], BLACK);
    assert!(app.vcf_solving);
    assert_eq!(app.vcf_status, "White VCF long / depth 1 / 5s");
    assert!(app.start_vcf_search(SearchMode::Fast, 3, 3).is_none());
    let path = vec![Move { x: 1, y: 2, color: WHITE }];
    app.finish_vcf_search(SolveOutcome::Found(path));
    assert!(!app.vcf_solving);
    assert_eq!(app.vcf_status, "VCF found: 1 moves");
    assert_eq!(app.vcf_solution.len(), 1);
    app.finish_vcf_search(SolveOutcome::Timeout);
    assert_eq!(app.vcf_status, "VCF search timed out");
    assert!(app.vcf_solution.is_empty());
}

#[test]
fn search_needs_a_side_to_move() {
    let mut app = fresh();
    app.board.place_stone(0, 0);
    app.board.next_player = Player::Black;
    app.board.place_stone(1, 0);
    let r = app.start_vcf_search(SearchMode::Shortest, 9, 0);
    assert!(r.is_none());
    assert!(!app.vcf_solving);
    assert_eq!(app.vcf_status, "石数が不正です（黒 2 / 白 0）");
    let mut ok = fresh();
    let req = ok.start_vcf_search(SearchMode::Shortest, 9, 0).unwrap();
    assert_eq!(req.turn, BLACK);
    assert_eq!(req.timeout_secs, 1);
    assert_eq!(ok.vcf_status, "Black VCF shortest / depth 9 / 1s");
}

#[test]
fn forbidden_points_are_cached() {
    let mut app = fresh();
    for (x, y) in [(6, 7), (0, 0), (8, 7), (0, 14), (7, 6), (14, 0), (7, 8), (14, 14)] {
        app.play_move(x, y);
    }
    let points = app.cached_forbidden_points();
    assert!(points.contains(&112));
    assert!(app.forbidden_points_valid);
    assert_eq!(app.cached_forbidden_points(), points);
    app.play_move(1, 1);
    assert!(app.cached_forbidden_points().is_empty());
}

#[test]
fn new_game_clears_everything() {
    let mut app = fresh();
    app.play_move(7, 7);
    app.set_comment_id(1, 3);
    app.new_game();
    assert_eq!(app.lib_nodes.as_ref().unwrap().len(), 1);
    assert!(app.node_texts.as_ref().unwrap().is_empty());
    assert!(app.board.history.is_empty());
    assert_eq!(app.current_node_idx, Some(0));
}

use renjulibviewer::branches::{branch_count_text, MoveType};

/// root -> h8 (1) -> {g9 (3), i8 (2) -> j8 (4)}; the viewer shows h8.
fn branching_app() -> RenjuApp {
    let mut app = fresh();
    app.play_move(7, 7);
    app.play_move(8, 7);
    app.reset_to_root();
    app.play_move(7, 7);
    app.play_move(6, 6);
    app.reset_to_root();
    app.play_move(7, 7);
    app.play_move(8, 7);
    app.play_move(9, 7);
    app.reset_to_root();
    app.play_move(7, 7);
    app
}

#[test]
fn branch_marks_of_a_node() {
    let mut app = branching_app();
    assert_eq!(app.current_node_idx, Some(1));
    let marks = app.branch_points(Some(1), 2);
    let cells: Vec<(usize, usize)> = marks.iter().map(|b| (b.x, b.y)).collect();
    assert_eq!(cells, vec![(6, 6), (7, 6), (8, 6), (6, 7), (8, 7), (6, 8), (7, 8), (8, 8)]);
    let kinds: Vec<MoveType> = marks.iter().map(|b| b.move_type).collect();
    assert_eq!(
        kinds,
        vec![
            MoveType::Normal,
            MoveType::Symmetry,
            MoveType::Symmetry,
            MoveType::Symmetry,
            MoveType::Normal,
            MoveType::Symmetry,
            MoveType::Symmetry,
            MoveType::Symmetry
        ]
    );
    let targets: Vec<Option<usize>> = marks.iter().map(|b| b.target_node_idx).collect();
    assert_eq!(targets, vec![Some(3), Some(2), Some(3), Some(2), Some(2), Some(3), Some(2), Some(3)]);
    let counts: Vec<usize> = marks.iter().map(|b| b.count).collect();
    assert_eq!(counts, vec![0, 1, 0, 1, 1, 0, 1, 0]);
    let lit: Vec<bool> = marks.iter().map(|b| b.highlighted).collect();
    assert_eq!(lit, vec![false, true, false, true, false, false, false, false]);
    assert!(marks.iter().all(|b| b.text.is_none()));
    assert_eq!(app.get_subtree_size(2), 1);
    assert_eq!(app.get_subtree_size(0), 4);
}

#[test]
fn branch_marks_show_board_texts() {
    let mut app = branching_app();
    assert!(app.set_board_text(6, 6, "A"));
    assert_eq!(app.decode_text(3), Some("A".to_string()));
    let marks = app.branch_points(Some(1), 0);
    assert_eq!(marks[0].text, Some("A".to_string()));
    assert!(marks.iter().all(|b| !b.highlighted));
}

#[test]
fn board_text_on_a_new_move_adds_the_node() {
    let mut app = branching_app();
    let before = app.lib_nodes.as_ref().unwrap().len();
    assert!(app.set_board_text(0, 0, "B"));
    let nodes = app.lib_nodes.as_ref().unwrap();
    assert_eq!(nodes.len(), before + 1);
    assert_eq!((nodes[before].x(), nodes[before].y(), nodes[before].parent), (0, 0, 1));
    assert_eq!(nodes[1].child, before as u32);
    assert_eq!(app.decode_text(before), Some("B".to_string()));
    assert_eq!(app.current_node_idx, Some(1));
    assert_eq!(app.board.history, vec![112]);
    assert!(app.set_board_text(0, 0, ""));
    assert_eq!(app.decode_text(before), None);
}

#[test]
fn comments_of_the_position_shown() {
    let mut app = branching_app();
    assert!(app.set_current_comment("hi"));
    assert_eq!(app.decode_comment(1), Some("hi".to_string()));
    assert!(app.set_current_comment("hi"));
    assert_eq!(app.text_pool.as_ref().unwrap().get(1), None);
    assert!(app.set_current_comment(""));
    assert_eq!(app.decode_comment(1), None);
}

#[test]
fn branch_size_texts() {
    assert_eq!(branch_count_text(0), "");
    assert_eq!(branch_count_text(5), "5");
    assert_eq!(branch_count_text(999), "999");
    assert_eq!(branch_count_text(1000), "1k");
    assert_eq!(branch_count_text(1250), "1.3k");
    assert_eq!(branch_count_text(999_999), "1000k");
    assert_eq!(branch_count_text(1_000_000), "1m");
    assert_eq!(branch_count_text(1_234_567), "1.2m");
    assert_eq!(branch_count_text(25_960_000), "26m");
}

#[test]
fn branch_size_texts_match_rounding_to_tenths() {
    for count in [1000usize, 1049, 1050, 1949, 1950, 12_345, 99_950, 1_049_999, 1_050_000, 7_777_777] {
        let text = if count >= 1_000_000 {
            let m = (count as f64 / 100_000.0).round() / 10.0;
            if m.fract() == 0.0 { format!("{}m", m as usize) } else { format!("{:.1}m", m) }
        } else {
            let k = (count as f64 / 100.0).round() / 10.0;
            if k.fract() == 0.0 { format!("{}k", k as usize) } else { format!("{:.1}k", k) }
        };
        assert_eq!(branch_count_text(count), text);
    }
}

#[test]
fn back_after_a_new_move_restores_the_position() {
    let mut app = fresh();
    app.play_move(7, 7);
    let grid_before = app.board.grid;
    let history_before = app.board.history.clone();
    app.play_move(8, 8);
    assert_eq!(app.current_node_idx, Some(2));
    app.step_back();
    assert_eq!(app.board.grid, grid_before);
    assert_eq!(app.board.history, history_before);
    assert_eq!(app.current_node_idx, Some(1));
    assert_eq!(app.board.future_history, vec![8 * 15 + 8]);
    assert_eq!(app.lib_nodes.as_ref().unwrap().len(), 3);
    assert!(app.step_forward());
    assert_eq!(app.current_node_idx, Some(2));
    assert_eq!(app.board.grid[8 * 15 + 8], Some(Player::White));
}

#[test]
fn back_at_the_root_changes_nothing() {
    let mut app = fresh();
    app.step_back();
    assert_eq!(app.current_node_idx, Some(0));
    assert!(app.board.history.is_empty());
    assert_eq!(app.lib_nodes.as_ref().unwrap().len(), 1);
}

#[test]
fn back_in_a_database_takes_the_last_move_back() {
    let mut app = fresh();
    app.is_db_mode = true;
    app.lib_nodes = None;
    app.current_node_idx = None;
    app.subtree_cache.clear();
    app.board.place_stone(7, 7);
    app.board.place_stone(8, 7);
    app.step_back();
    assert_eq!(app.board.history.len(), 1);
    assert_eq!(app.board.grid[7 * 15 + 8], None);
    assert_eq!(app.board.grid[7 * 15 + 7], Some(Player::Black));
    assert_eq!(app.current_node_idx, None);
}

#[test]
fn subtree_size_is_kept_in_the_cache() {
    let mut app = fresh();
    app.play_move(7, 7);
    app.play_move(8, 7);
    let n = app.get_subtree_size(0);
    assert_eq!(n, 2);
    assert_eq!(app.subtree_cache[0], Some(2));
    assert_eq!(app.get_subtree_size(0), 2);
}
