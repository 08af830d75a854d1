use renjulibviewer::board::Player;
use renjulibviewer::engine::hash_board::Board as HashBoard;
use renjulibviewer::engine::node::{RenLibNode, TextPool, NO_NODE, NO_TEXT};
use renjulibviewer::io::parser::RenLibParser;
use renjulibviewer::io::writer::RenLibWriter;
use renjulibviewer::session::RenjuApp;
use renjulibviewer::setting::TextEncoding;

/// A viewer holding the tree root -> h8 -> {g9 (commented "nice"), i7}.
fn sample_app() -> RenjuApp {
    let mut app = RenjuApp::new_with_settings(TextEncoding::UTF8, 1_000_000);
    app.play_move(7, 7);
    app.play_move(8, 8);
    app.reset_to_root();
    app.play_move(7, 7);
    app.play_move(6, 6);
    let id = app.text_pool.as_mut().unwrap().get_or_insert(b"nice");
    app.set_comment_id(3, id);
    app
}

fn sample_lib() -> Vec<u8> {
    let app = sample_app();
    let mut writer = RenLibWriter::new(TextEncoding::UTF8);
    writer.save(
        app.lib_nodes.as_ref().unwrap(),
        app.node_texts.as_ref().unwrap(),
        app.text_pool.as_ref().unwrap(),
    )
}

#[test]
fn write_string_pads_to_even_length() {
    let mut w = RenLibWriter::new(TextEncoding::UTF8);
    w.write_string("ab");
    assert_eq!(w.buffer, vec![b'a', b'b', 0, 0]);
    w.buffer.clear();
    w.write_string("é");
    assert_eq!(w.buffer, vec![0xC3, 0xA9, 0, 0]);
    w.buffer.clear();
    w.write_string("abc");
    assert_eq!(w.buffer, vec![b'a', b'b', b'c', 0]);
    let mut s = RenLibWriter::new(TextEncoding::ShiftJIS);
    s.write_string("あ");
    assert_eq!(s.buffer, vec![0x82, 0xA0, 0, 0]);
}

#[test]
fn save_writes_records_depth_first() {
    let bytes = sample_lib();
    let mut expected = vec![0u8; 20];
    expected.extend_from_slice(&[0x00, 0x00]);
    expected.extend_from_slice(&[0x78, 0x00]);
    expected.extend_from_slice(&[0x67, 0xC8, b'n', b'i', b'c', b'e', 0, 0]);
    expected.extend_from_slice(&[0x89, 0x40]);
    assert_eq!(bytes, expected);
}

#[test]
fn save_skips_deleted_nodes() {
    let mut app = sample_app();
    app.node_to_delete = Some(2);
    app.delete_current_branch();
    let mut writer = RenLibWriter::new(TextEncoding::UTF8);
    let bytes = writer.save(
        app.lib_nodes.as_ref().unwrap(),
        app.node_texts.as_ref().unwrap(),
        app.text_pool.as_ref().unwrap(),
    );
    let mut expected = vec![0u8; 20];
    expected.extend_from_slice(&[0x00, 0x00, 0x78, 0x00, 0x67, 0x48, b'n', b'i', b'c', b'e', 0, 0]);
    assert_eq!(bytes, expected);
}

#[test]
fn parse_all_reads_back_a_saved_tree() {
    let bytes = sample_lib();
    let mut parser = RenLibParser::new(1_000_000);
    parser.set_encoding(TextEncoding::UTF8);
    let mut board = HashBoard::new();
    assert!(parser.parse_all(&bytes, &mut board).is_ok());
    let n = &parser.nodes;
    assert_eq!(n.len(), 4);
    assert_eq!((n[0].x(), n[0].y(), n[0].child), (-1, -1, 1));
    assert_eq!((n[1].x(), n[1].y(), n[1].parent, n[1].child), (7, 7, 0, 2));
    assert_eq!((n[2].x(), n[2].y(), n[2].parent, n[2].sibling), (6, 6, 1, 3));
    assert_eq!((n[3].x(), n[3].y(), n[3].parent, n[3].sibling), (8, 8, 1, NO_NODE));
    assert_eq!(n[2].depth(), 2);
    let mut h = HashBoard::new();
    h.make_move(7, 7);
    assert_eq!(n[1].hash, h.get_canonical_hash());
    assert_eq!(parser.hash_table.get(&h.get_canonical_hash()), Some(&1));
    let cid = parser.node_texts[2] & 0xFFFF;
    assert_eq!(parser.text_pool.get(cid), Some(&b"nice"[..]));
    assert_eq!(parser.node_texts[3], 0xFFFF_FFFF);
}

#[test]
fn parse_all_ignores_short_files() {
    let mut parser = RenLibParser::new(100);
    let mut board = HashBoard::new();
    assert!(parser.parse_all(&[0u8; 10], &mut board).is_ok());
    assert!(parser.nodes.is_empty());
}

#[test]
fn parse_db_rejects_truncated_data() {
    let mut parser = RenLibParser::new(100);
    assert!(parser.parse_db(&[1, 0]).is_err());
    assert!(parser.parse_db(&[0, 0, 0, 0]).is_ok());
    assert_eq!(parser.nodes.len(), 1);
}

#[test]
fn save_db_writes_header_and_merges_mirrored_positions() {
    let app = sample_app();
    let mut writer = RenLibWriter::new(TextEncoding::UTF8);
    let bytes = writer.save_db(
        app.lib_nodes.as_ref().unwrap(),
        app.node_texts.as_ref().unwrap(),
        app.text_pool.as_ref().unwrap(),
    );
    // root, h8, and one position for g9 and i7 (they mirror each other)
    assert_eq!(&bytes[0..4], &[4, 0, 0, 0]);
    assert_eq!(&bytes[4..16], &[3, 0, 2, 0, 0, 20, 0, 0, 0, 0, 0, 0]);
    assert_eq!(&bytes[16..31], b"charset=\"UTF-8\"");
    assert_eq!(writer.buffer, bytes);
    let empty = RenLibWriter::new(TextEncoding::UTF8).save_db(&[], &[], &TextPool::new());
    assert_eq!(empty, vec![0, 0, 0, 0]);
}

#[test]
fn database_round_trip_finds_positions() {
    let app = sample_app();
    let mut writer = RenLibWriter::new(TextEncoding::UTF8);
    let bytes = writer.save_db(
        app.lib_nodes.as_ref().unwrap(),
        app.node_texts.as_ref().unwrap(),
        app.text_pool.as_ref().unwrap(),
    );
    let mut db = RenjuApp::new_with_settings(TextEncoding::UTF8, 1_000_000);
    assert!(db.process_loaded_data(&bytes, true));
    assert!(db.is_db_mode);
    assert_eq!(db.get_current_node(), Some(0));
    // from the empty board only h8 leads to a stored position
    assert!(db.step_forward());
    assert_eq!(db.board.history, vec![112]);
    let h8 = db.get_current_node();
    assert!(h8.is_some());
    // four cells lead to the stored g9/i7 position: no single way forward
    assert!(!db.step_forward());
    db.play_move(8, 6);
    let node = db.get_current_node().unwrap();
    assert_eq!(db.decode_comment(node), Some("nice".to_string()));
    db.play_move(0, 0);
    assert_eq!(db.get_current_node(), None);
    db.reset_to_root();
    assert!(db.board.history.is_empty());
}

#[test]
fn loading_a_lib_shows_its_root() {
    let bytes = sample_lib();
    let mut app = RenjuApp::new_with_settings(TextEncoding::UTF8, 1_000_000);
    app.play_move(0, 0);
    assert!(app.process_loaded_data(&bytes, false));
    assert!(!app.is_db_mode);
    assert_eq!(app.current_node_idx, Some(0));
    assert!(app.board.history.is_empty());
    assert_eq!(app.get_subtree_size(0), 3);
    assert_eq!(app.get_subtree_size(1), 2);
    assert_eq!(app.decode_comment(2), Some("nice".to_string()));
    assert_eq!(app.decode_comment(3), None);
    assert_eq!(app.get_text_id(2), NO_TEXT);
    app.play_move(7, 7);
    assert_eq!(app.current_node_idx, Some(1));
    assert_eq!(app.board.grid[112], Some(Player::Black));
    assert!(!app.step_forward());
}

#[test]
fn loading_bad_database_keeps_state() {
    let mut app = RenjuApp::new_with_settings(TextEncoding::UTF8, 1_000_000);
    app.play_move(7, 7);
    assert!(!app.process_loaded_data(&[1, 2], true));
    assert_eq!(app.board.history, vec![112]);
    assert_eq!(app.current_node_idx, Some(1));
    assert_eq!(app.lib_nodes.as_ref().unwrap().len(), 2);
}

#[test]
fn saved_lib_of_a_one_move_tree() {
    let mut nodes = vec![RenLibNode::new(-1, -1, NO_NODE, 1, NO_NODE, 0, 0)];
    nodes.push(RenLibNode::new(7, 7, 0, NO_NODE, NO_NODE, 1, 1));
    let bytes = RenLibWriter::new(TextEncoding::ShiftJIS).save(&nodes, &[], &TextPool::new());
    let mut expected = vec![0u8; 20];
    expected.extend_from_slice(&[0x00, 0x00, 0x78, 0x40]);
    assert_eq!(bytes, expected);
}

#[test]
fn saved_db_of_a_one_move_tree() {
    let mut nodes = vec![RenLibNode::new(-1, -1, NO_NODE, 1, NO_NODE, 0, 0)];
    nodes.push(RenLibNode::new(7, 7, 0, NO_NODE, NO_NODE, 1, 1));
    let bytes = RenLibWriter::new(TextEncoding::UTF8).save_db(&nodes, &[], &TextPool::new());
    let mut expected = vec![3u8, 0, 0, 0];
    expected.extend_from_slice(&[3, 0, 2, 0, 0, 20, 0, 0, 0, 0, 0, 0]);
    expected.extend_from_slice(b"charset=\"UTF-8\"");
    // the root: a key of no stones and no data
    expected.extend_from_slice(&[3, 0, 2, 15, 15, 0, 0]);
    // h8: one black stone on (7, 7), no data
    expected.extend_from_slice(&[5, 0, 2, 15, 15, 7, 7, 0, 0]);
    assert_eq!(bytes, expected);
}

#[test]
fn saved_db_merges_mirrored_corners() {
    let nodes = vec![
        RenLibNode::new(-1, -1, NO_NODE, 1, NO_NODE, 0, 0),
        RenLibNode::new(0, 0, 0, NO_NODE, 2, 0, 1),
        RenLibNode::new(14, 14, 0, NO_NODE, NO_NODE, 0, 1),
    ];
    let r = RenLibWriter::new(TextEncoding::UTF8).save_db(&nodes, &[], &TextPool::new());
    assert_eq!(r.len(), 47);
    assert_eq!(&r[0..4], &[3, 0, 0, 0]);
    assert_eq!(&r[4..16], &[3, 0, 2, 0, 0, 20, 0, 0, 0, 0, 0, 0]);
    assert_eq!(&r[16..31], b"charset=\"UTF-8\"");
    assert_eq!(&r[31..38], &[3, 0, 2, 15, 15, 0, 0]);
    assert_eq!(&r[38..40], &[5, 0]);
    assert_eq!(&r[40..43], &[2, 15, 15]);
    assert_eq!(&r[45..47], &[0, 0]);
}

#[test]
fn database_reading_keeps_the_root_and_the_node_limit() {
    let app = sample_app();
    let bytes = RenLibWriter::new(TextEncoding::UTF8).save_db(
        app.lib_nodes.as_ref().unwrap(),
        app.node_texts.as_ref().unwrap(),
        app.text_pool.as_ref().unwrap(),
    );
    let mut parser = RenLibParser::new(1);
    assert!(parser.parse_db(&bytes).is_ok());
    assert!(parser.nodes.len() <= 2);
    assert_eq!(parser.nodes[0].hash, 0);
    assert_eq!(parser.nodes[0].parent, NO_NODE);
    assert_eq!(parser.hash_table.get(&0), Some(&0));
}

#[test]
fn parse_all_of_one_move_leaves_the_board_as_it_was() {
    let mut parser = RenLibParser::new(100);
    let mut board = HashBoard::new();
    let mut data = vec![0u8; 20];
    data.extend_from_slice(&[0x00, 0x00, 0x78, 0x40]);
    assert!(parser.parse_all(&data, &mut board).is_ok());
    let n = &parser.nodes;
    assert_eq!(n.len(), 2);
    assert_eq!((n[0].x(), n[0].child), (-1, 1));
    assert_eq!((n[1].x(), n[1].y(), n[1].depth(), n[1].parent), (7, 7, 1, 0));
    assert_eq!((n[1].child, n[1].sibling), (NO_NODE, NO_NODE));
    assert_eq!(parser.hash_table.len(), 1);
    assert_eq!(parser.node_texts, vec![NO_TEXT; 2]);
    let fresh = HashBoard::new();
    assert_eq!(board.occupied, fresh.occupied);
    assert_eq!(board.hashes, fresh.hashes);
    assert_eq!(board.move_count, fresh.move_count);
}
