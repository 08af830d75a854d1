use renjulibviewer::exportkifu::{
    generate_notation, generate_renjuportal_v1, generate_renjuportal_v2, generate_sgf, parse_notation,
    parse_renjuportal, parse_sgf,
};
use renjulibviewer::io::labels::{is_label_value_text, text_to_label_value};
use renjulibviewer::setting::TextEncoding;

#[test]
fn notation_text_of_moves() {
    assert_eq!(generate_notation(&[112, 113, 0]), "h8i8a15");
    assert_eq!(generate_notation(&[]), "");
}

#[test]
fn notation_reads_back_what_it_writes() {
    let history = [112usize, 97, 128, 14, 210];
    let text = generate_notation(&history);
    let moves = parse_notation(&text);
    let back: Vec<usize> = moves.iter().map(|&(x, y)| y * 15 + x).collect();
    assert_eq!(back, history.to_vec());
}

#[test]
fn notation_parsing_skips_what_is_not_a_move() {
    assert_eq!(parse_notation("H8 i8, p3 a0 a16 b15"), vec![(7, 7), (8, 7), (1, 0)]);
    assert!(parse_notation("").is_empty());
}

#[test]
fn sgf_text_of_moves() {
    assert_eq!(generate_sgf(&[]), "(;GM[1]SZ[15])");
    assert_eq!(generate_sgf(&[112, 113]), "(;GM[1]SZ[15]\n;B[hh];W[ih])");
}

#[test]
fn sgf_reads_back_what_it_writes() {
    let text = generate_sgf(&[112, 113, 0]);
    assert_eq!(parse_sgf(&text), vec![(7, 7), (8, 7), (0, 0)]);
    assert_eq!(parse_sgf("(;GM[1]C[日本語の棋譜];B[hh];W[ih])"), vec![(7, 7), (8, 7)]);
    assert_eq!(parse_sgf("(;GM[1]C[hh];B[HH])"), vec![(7, 7)]);
}

#[test]
fn renjuportal_links() {
    assert_eq!(generate_renjuportal_v1(&[112, 0, 224]), "https://v1.renjuportal.com/board/?mv=7700ee");
    assert_eq!(generate_renjuportal_v2(&[112]), "https://renjuportal.com/board?mvs=77");
    assert_eq!(parse_renjuportal("https://renjuportal.com/board?mvs=77e0"), vec![(7, 7), (14, 0)]);
    assert_eq!(parse_renjuportal("https://v1.renjuportal.com/board/?x=1&mv=7788f0"), vec![(7, 7), (8, 8)]);
    assert_eq!(parse_renjuportal("  mv=7 7"), vec![(7, 7)]);
}

#[test]
fn labels_and_evaluations_are_recognised() {
    assert!(is_label_value_text("W"));
    assert!(is_label_value_text("L"));
    assert!(is_label_value_text("W12"));
    assert!(is_label_value_text("L-3"));
    assert!(is_label_value_text("75%"));
    assert!(is_label_value_text("-20"));
    assert!(!is_label_value_text("W1x"));
    assert!(!is_label_value_text("abc"));
    assert!(!is_label_value_text(""));
}

#[test]
fn label_values() {
    assert_eq!(text_to_label_value("W", 3), (b'W', 0));
    assert_eq!(text_to_label_value("L", 3), (b'L', 0));
    assert_eq!(text_to_label_value("W5", 2), (b'W', -29998));
    assert_eq!(text_to_label_value("L5", 2), (b'L', 29998));
    assert_eq!(text_to_label_value("W2", 2), (b'W', 0));
    assert_eq!(text_to_label_value("75%", 0), (0, 274));
    assert_eq!(text_to_label_value("25", 0), (0, -274));
    assert_eq!(text_to_label_value("50", 0), (0, 0));
    assert_eq!(text_to_label_value("100", 0), (0, 0));
    assert_eq!(text_to_label_value("hello", 0), (0, 0));
}

#[test]
fn label_values_match_the_logistic_scale() {
    for pct in 1..100 {
        let wr = pct as f64 / 100.0;
        let expected = ((250.0 * (wr / (1.0 - wr)).ln()) as i16).clamp(-29500, 29500);
        assert_eq!(text_to_label_value(&format!("{}%", pct), 0), (0, expected));
    }
}

#[test]
fn encodings_have_labels() {
    assert_eq!(TextEncoding::ShiftJIS.label(), "日本語 (Shift_JIS)");
    assert_eq!(TextEncoding::UTF8.label(), "UTF-8");
}

#[test]
fn renjuportal_links_read_back_their_moves() {
    let history = [112usize, 113, 0, 224, 14, 210];
    let expected: Vec<(usize, usize)> = history.iter().map(|&m| (m % 15, m / 15)).collect();
    assert_eq!(parse_renjuportal(&generate_renjuportal_v1(&history)), expected);
    assert_eq!(parse_renjuportal(&generate_renjuportal_v2(&history)), expected);
}

#[test]
fn sgf_of_a_longer_game_reads_back() {
    let history = [112usize, 113, 0, 224, 14, 210, 97];
    let expected: Vec<(usize, usize)> = history.iter().map(|&m| (m % 15, m / 15)).collect();
    assert_eq!(parse_sgf(&generate_sgf(&history)), expected);
}
