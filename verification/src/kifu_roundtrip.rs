use vstd::prelude::*;
use vstd::utf8::{
    encode_utf8, is_char_boundary, valid_utf8, is_ascii_chars, is_ascii_chars_encode_utf8, encode_utf8_valid_utf8,
    is_char_boundary_iff_not_is_continuation_byte, is_char_boundary_start_end_of_seq,
};
use crate::exportkifu::{
    sgf_text, sgf_piece, sgf_header, col_char, coords, on_board_moves, sgf_scan_ok, sgf_scan_moves, first_byte_from,
    sgf_coord_at, sgf_move_prefix, sgf_prefix_start, has_byte_from, is_coord_byte, portal_moves, portal_piece,
    portal_v1_prefix, portal_v2_prefix, portal_read, portal_hex_part, hex_pairs, hex_text, hex_char, hex_value,
    is_hex_char, first_index, move_param, occurs_at, mv_key, mvs_key, lemma_move_param_step, lemma_first_index_bound,
};
use crate::text::{ascii_lower, all_ascii, ascii_ws};

verus! {

/// The SGF text of a move list as the reader scans it: lower-cased (ASCII),
/// then as UTF-8 bytes.
pub open spec fn sgf_read_bytes(history: Seq<usize>) -> Seq<u8> {
    encode_utf8(sgf_text(history).map_values(|c: char| ascii_lower(c)))
}

/// Where the move nodes start in the SGF text: after the header and, when
/// there are moves, a line break.
pub open spec fn sgf_body_start(n: nat) -> int {
    if n > 0 {
        14
    } else {
        13
    }
}

/// The bytes `b` lay out the lower-cased SGF text of `h`: the header
/// "(;gm[1]sz[15]", a line break before any move, six bytes per move
/// (";b[" or ";w[", column and row letters, "]"), and ")".
pub open spec fn sgf_layout(b: Seq<u8>, h: Seq<usize>) -> bool {
    let n = h.len();
    let o = sgf_body_start(n);
    &&& b.len() == o + 6 * n + 1
    &&& forall|k: int| 0 <= k < b.len() ==> #[trigger] b[k] < 128
    &&& b[0] == 40u8 && b[1] == 59u8 && b[2] == 103u8 && b[3] == 109u8 && b[4] == 91u8 && b[5] == 49u8
    &&& b[6] == 93u8 && b[7] == 115u8 && b[8] == 122u8 && b[9] == 91u8 && b[10] == 49u8 && b[11] == 53u8
    &&& b[12] == 93u8
    &&& n > 0 ==> b[13] == 10u8
    &&& forall|i: int| 0 <= i < n ==> #[trigger] sgf_move_bytes_at(b, o + 6 * i, i, h[i])
    &&& b[o + 6 * n] == 41u8
}

/// The six bytes of move `i` (on cell `m`) start at `q`: ";b[" or ";w[",
/// column and row letters, "]".
pub open spec fn sgf_move_bytes_at(b: Seq<u8>, q: int, i: int, m: usize) -> bool {
    &&& b[q] == 59u8
    &&& b[q + 1] == (if i % 2 == 0 { 98u8 } else { 119u8 })
    &&& b[q + 2] == 91u8
    &&& b[q + 3] == 97 + m % 15
    &&& b[q + 4] == 97 + m / 15
    &&& b[q + 5] == 93u8
}

/// Flattening pieces of one width `w`: character `k` is character `k % w` of
/// piece `k / w`.
proof fn lemma_flatten_uniform(s: Seq<Seq<char>>, w: int)
    requires
        w > 0,
        forall|i: int| 0 <= i < s.len() ==> #[trigger] s[i].len() == w,
    ensures
        s.flatten().len() == s.len() * w,
        forall|k: int| 0 <= k < s.len() * w ==> #[trigger] s.flatten()[k] == s[k / w][k % w],
    decreases s.len(),
{
    if s.len() > 0 {
        let t = s.drop_first();
        lemma_flatten_uniform(t, w);
        assert(s.flatten() == s[0] + t.flatten());
        assert(s.len() * w == w + t.len() * w) by (nonlinear_arith)
            requires
                s.len() == t.len() + 1,
        ;
        assert forall|k: int| 0 <= k < s.len() * w implies #[trigger] s.flatten()[k] == s[k / w][k % w] by {
            if k < w {
                assert(k / w == 0 && k % w == k) by (nonlinear_arith)
                    requires
                        0 <= k < w,
                ;
            } else {
                assert((k - w) / w == k / w - 1 && (k - w) % w == k % w && 0 <= (k - w) / w < t.len()) by (nonlinear_arith)
                    requires
                        k >= w,
                        w > 0,
                        k < s.len() * w,
                        s.len() == t.len() + 1,
                ;
                assert(s.flatten()[k] == t.flatten()[k - w]);
                assert(t.flatten()[k - w] == t[(k - w) / w][(k - w) % w]);
                assert(t[(k - w) / w] == s[k / w]);
            }
        }
    }
}

/// The characters of the SGF text of an on-board move list, place by place.
proof fn lemma_sgf_text_chars(h: Seq<usize>)
    requires
        on_board_moves(h),
    ensures
        ({
            let n = h.len();
            let o = sgf_body_start(n);
            let t = sgf_text(h);
            &&& t.len() == o + 6 * n + 1
            &&& forall|k: int| 0 <= k < 13 ==> #[trigger] t[k] == sgf_header()[k]
            &&& n > 0 ==> t[13] == '\n'
            &&& forall|i: int, j: int| 0 <= i < n && 0 <= j < 6 ==> #[trigger] t[o + 6 * i + j] == sgf_piece(i, h[i])[j]
            &&& t[o + 6 * n] == ')'
        }),
{
    let n = h.len();
    let o = sgf_body_start(n);
    let pieces = Seq::new(n, |i: int| sgf_piece(i, h[i]));
    assert forall|i: int| 0 <= i < n implies #[trigger] pieces[i].len() == 6 by {}
    lemma_flatten_uniform(pieces, 6);
    let body = pieces.flatten();
    let nl = if n > 0 { seq!['\n'] } else { Seq::<char>::empty() };
    let t = sgf_text(h);
    assert(t == sgf_header() + nl + body + seq![')']);
    assert forall|i: int, j: int| 0 <= i < n && 0 <= j < 6 implies #[trigger] t[o + 6 * i + j] == sgf_piece(i, h[i])[j] by {
        assert((6 * i + j) / 6 == i && (6 * i + j) % 6 == j && 6 * i + j < 6 * n) by (nonlinear_arith)
            requires
                0 <= i < n,
                0 <= j < 6,
        ;
        assert(body[6 * i + j] == pieces[i][j]);
    }
}

/// Every character of the SGF text of an on-board move list is ASCII.
proof fn lemma_sgf_text_ascii(h: Seq<usize>)
    requires
        on_board_moves(h),
    ensures
        forall|k: int| 0 <= k < sgf_text(h).len() ==> (#[trigger] sgf_text(h)[k] as int) < 128,
{
    lemma_sgf_text_chars(h);
    let n = h.len();
    let o = sgf_body_start(n);
    let t = sgf_text(h);
    assert forall|k: int| 0 <= k < t.len() implies (#[trigger] t[k] as int) < 128 by {
        if o <= k < o + 6 * n {
            let i = (k - o) / 6;
            let j = (k - o) % 6;
            assert(k == o + 6 * i + j && 0 <= i < n && 0 <= j < 6) by (nonlinear_arith)
                requires
                    o <= k < o + 6 * n,
                    i == (k - o) / 6,
                    j == (k - o) % 6,
            ;
            assert(t[o + 6 * i + j] == sgf_piece(i, h[i])[j]);
            assert(h[i] < 225);
        } else if k < 13 {
            assert(t[k] == sgf_header()[k]);
        }
    }
}

/// The lower-cased SGF text of an on-board move list has the layout above.
proof fn lemma_sgf_read_layout(h: Seq<usize>)
    requires
        on_board_moves(h),
    ensures
        sgf_layout(sgf_read_bytes(h), h),
        is_ascii_chars(sgf_text(h).map_values(|c: char| ascii_lower(c))),
{
    lemma_sgf_text_chars(h);
    lemma_sgf_text_ascii(h);
    let n = h.len();
    let o = sgf_body_start(n);
    let t = sgf_text(h);
    let l = t.map_values(|c: char| ascii_lower(c));
    assert(is_ascii_chars(l)) by {
        assert forall|k: int| 0 <= k < l.len() implies '\0' <= #[trigger] l[k] <= '\u{7f}' by {
            assert((t[k] as int) < 128);
        }
    }
    is_ascii_chars_encode_utf8(l);
    let b = sgf_read_bytes(h);
    assert(t[0] == sgf_header()[0] && b[0] == l[0] as u8 && l[0] == ascii_lower(t[0]));
    assert(t[1] == sgf_header()[1] && b[1] == l[1] as u8 && l[1] == ascii_lower(t[1]));
    assert(t[2] == sgf_header()[2] && b[2] == l[2] as u8 && l[2] == ascii_lower(t[2]));
    assert(t[3] == sgf_header()[3] && b[3] == l[3] as u8 && l[3] == ascii_lower(t[3]));
    assert(t[4] == sgf_header()[4] && b[4] == l[4] as u8 && l[4] == ascii_lower(t[4]));
    assert(t[5] == sgf_header()[5] && b[5] == l[5] as u8 && l[5] == ascii_lower(t[5]));
    assert(t[6] == sgf_header()[6] && b[6] == l[6] as u8 && l[6] == ascii_lower(t[6]));
    assert(t[7] == sgf_header()[7] && b[7] == l[7] as u8 && l[7] == ascii_lower(t[7]));
    assert(t[8] == sgf_header()[8] && b[8] == l[8] as u8 && l[8] == ascii_lower(t[8]));
    assert(t[9] == sgf_header()[9] && b[9] == l[9] as u8 && l[9] == ascii_lower(t[9]));
    assert(t[10] == sgf_header()[10] && b[10] == l[10] as u8 && l[10] == ascii_lower(t[10]));
    assert(t[11] == sgf_header()[11] && b[11] == l[11] as u8 && l[11] == ascii_lower(t[11]));
    assert(t[12] == sgf_header()[12] && b[12] == l[12] as u8 && l[12] == ascii_lower(t[12]));
    assert forall|i: int| 0 <= i < n implies #[trigger] sgf_move_bytes_at(b, o + 6 * i, i, h[i]) by {
        assert(h[i] < 225);
        let q = o + 6 * i;
        let pc = sgf_piece(i, h[i]);
        assert(t[q + 0] == pc[0]);
        assert(t[q + 1] == pc[1]);
        assert(t[q + 2] == pc[2]);
        assert(t[q + 3] == pc[3]);
        assert(t[q + 4] == pc[4]);
        assert(t[q + 5] == pc[5]);
        assert(pc[0] == ';' && pc[2] == '[' && pc[5] == ']');
        assert(pc[1] == if i % 2 == 0 { 'B' } else { 'W' });
        assert(pc[3] == col_char(h[i] as int % 15));
        assert(pc[4] == col_char((h[i] as int / 15) % 256));
        assert(b[q] == l[q] as u8 && l[q] == ascii_lower(t[q]));
        assert(b[q + 1] == l[q + 1] as u8 && l[q + 1] == ascii_lower(t[q + 1]));
        assert(b[q + 2] == l[q + 2] as u8 && l[q + 2] == ascii_lower(t[q + 2]));
        assert(b[q + 3] == l[q + 3] as u8 && l[q + 3] == ascii_lower(t[q + 3]));
        assert(b[q + 4] == l[q + 4] as u8 && l[q + 4] == ascii_lower(t[q + 4]));
        assert(b[q + 5] == l[q + 5] as u8 && l[q + 5] == ascii_lower(t[q + 5]));
        assert(b[q] == 59u8);
        assert(b[q + 1] == (if i % 2 == 0 { 98u8 } else { 119u8 }));
        assert(b[q + 2] == 91u8);
        assert(b[q + 3] == 97 + h[i] % 15);
        assert(b[q + 4] == 97 + h[i] / 15);
        assert(b[q + 5] == 93u8);
    }
    assert forall|k: int| 0 <= k < b.len() implies #[trigger] b[k] < 128 by {
        assert((t[k] as int) < 128);
    }
    if n > 0 {
        assert(l[13] == t[13] && b[13] == l[13] as u8);
    }
    assert(l[o + 6 * n] == t[o + 6 * n] && b[o + 6 * n] == l[o + 6 * n] as u8);
    assert(b.len() == o + 6 * n + 1);
    assert(b[0] == 40u8 && b[1] == 59u8 && b[2] == 103u8 && b[3] == 109u8);
    assert(b[4] == 91u8 && b[5] == 49u8 && b[6] == 93u8 && b[7] == 115u8);
    assert(b[8] == 122u8 && b[9] == 91u8 && b[10] == 49u8 && b[11] == 53u8 && b[12] == 93u8);
    assert(n > 0 ==> b[13] == 10u8);
    assert(b[o + 6 * n] == 41u8);
}

/// Every place in a run of ASCII bytes that is valid UTF-8 is a character
/// boundary.
proof fn lemma_ascii_boundaries(b: Seq<u8>)
    requires
        valid_utf8(b),
        forall|k: int| 0 <= k < b.len() ==> #[trigger] b[k] < 128,
    ensures
        forall|k: int| 0 <= k <= b.len() ==> #[trigger] is_char_boundary(b, k),
{
    assert forall|k: int| 0 <= k <= b.len() implies #[trigger] is_char_boundary(b, k) by {
        if k < b.len() {
            is_char_boundary_iff_not_is_continuation_byte(b, k);
        } else {
            is_char_boundary_start_end_of_seq(b);
        }
    }
}

/// The first `c` at or after `from` is at `p` when `p` holds `c` and nothing
/// between does.
proof fn lemma_first_byte_at(b: Seq<u8>, c: u8, from: int, p: int)
    requires
        0 <= from <= p < b.len(),
        b[p] == c,
        forall|j: int| from <= j < p ==> b[j] != c,
    ensures
        first_byte_from(b, c, from) == Some(p),
    decreases p - from,
{
    if from < p {
        lemma_first_byte_at(b, c, from + 1, p);
    }
}

/// No `c` at or after `from`.
proof fn lemma_first_byte_none(b: Seq<u8>, c: u8, from: int)
    requires
        0 <= from,
        forall|j: int| from <= j < b.len() ==> b[j] != c,
    ensures
        first_byte_from(b, c, from) is None,
    decreases b.len() - from,
{
    if from < b.len() {
        lemma_first_byte_none(b, c, from + 1);
    }
}

/// Where the scan stands before move `i`: just past the header, or on the
/// row letter of move `i - 1`.
spec fn scan_point(n: nat, i: int) -> int {
    if i == 0 {
        11
    } else {
        sgf_body_start(n) + 6 * i - 2
    }
}

/// From the scan point before move `i`, the scan reads moves `i..` and
/// stays on character boundaries.
proof fn lemma_scan_moves(b: Seq<u8>, h: Seq<usize>, i: int)
    requires
        sgf_layout(b, h),
        valid_utf8(b),
        on_board_moves(h),
        0 <= i <= h.len(),
    ensures
        sgf_scan_ok(b, scan_point(h.len(), i)),
        sgf_scan_moves(b, scan_point(h.len(), i)) == coords(h).subrange(i, h.len() as int),
    decreases h.len() - i,
{
    lemma_ascii_boundaries(b);
    let n = h.len();
    let o = sgf_body_start(n);
    let s = scan_point(n, i);
    assert(0 <= s <= b.len());
    if i == n {
        assert forall|j: int| s <= j < b.len() implies b[j] != 91u8 by {
            if i > 0 {
                assert(sgf_move_bytes_at(b, o + 6 * (i - 1), i - 1, h[i - 1]));
                assert(h[i - 1] < 225);
            }
        }
        lemma_first_byte_none(b, 91u8, s);
        assert(coords(h).subrange(i, n as int) =~= Seq::<(usize, usize)>::empty());
    } else {
        let p = o + 6 * i + 2;
        assert(h[i] < 225);
        assert(sgf_move_bytes_at(b, o + 6 * i, i, h[i]));
        assert(b[p] == 91u8);
        assert forall|j: int| s <= j < p implies b[j] != 91u8 by {
            if i > 0 {
                assert(sgf_move_bytes_at(b, o + 6 * (i - 1), i - 1, h[i - 1]));
                assert(h[i - 1] < 225);
            }
        }
        lemma_first_byte_at(b, 91u8, s, p);
        assert(h[i] < 225);
        assert(b[p + 3] == 93u8);
        assert(has_byte_from(b, 93u8, p + 1));
        assert(sgf_coord_at(b, p));
        assert(sgf_move_prefix(b, p)) by {
            if i % 2 == 0 {
                assert(b[p - 1] == 98u8);
            } else {
                assert(b[p - 1] == 119u8);
            }
        }
        assert(p + 2 == scan_point(n, i + 1));
        lemma_scan_moves(b, h, i + 1);
        assert(((b[p + 1] - 97) as usize, (b[p + 2] - 97) as usize) == (h[i] % 15, h[i] / 15));
        assert(coords(h).subrange(i, n as int) =~= seq![(h[i] % 15, h[i] / 15)] + coords(h).subrange(i + 1, n as int));
        assert(is_char_boundary(b, sgf_prefix_start(p)));
    }
}

/// The SGF text of a move list on the board is ASCII and reads back, through
/// the scan `parse_sgf` makes of an ASCII text (after ASCII lower-casing), as
/// the column and row of every move in order: `parse_sgf` of what
/// `generate_sgf` writes gives the moves back; the scan never has to slice
/// inside a character.
pub proof fn lemma_sgf_roundtrip(history: Seq<usize>)
    requires
        on_board_moves(history),
    ensures
        all_ascii(sgf_text(history)),
        sgf_scan_ok(sgf_read_bytes(history), 0),
        sgf_scan_moves(sgf_read_bytes(history), 0) == coords(history),
{
    lemma_sgf_text_ascii(history);
    let h = history;
    let b = sgf_read_bytes(h);
    lemma_sgf_read_layout(h);
    encode_utf8_valid_utf8(sgf_text(h).map_values(|c: char| ascii_lower(c)));
    lemma_ascii_boundaries(b);
    lemma_scan_moves(b, h, 0);
    // "(;gm[1]": the '[' at 4 holds no coordinate
    lemma_first_byte_at(b, 91u8, 0, 4);
    assert(!sgf_coord_at(b, 4)) by {
        assert(!is_coord_byte(b[5]));
    }
    // "sz[15]": nor does the '[' at 9
    lemma_first_byte_at(b, 91u8, 6, 9);
    assert(!sgf_coord_at(b, 9)) by {
        assert(!is_coord_byte(b[10]));
    }
    assert(scan_point(h.len(), 0) == 11);
    assert(coords(h).subrange(0, h.len() as int) =~= coords(h));
    assert(is_char_boundary(b, 0) && is_char_boundary(b, 6));
    assert(sgf_scan_ok(b, 6) == sgf_scan_ok(b, 11));
    assert(sgf_scan_ok(b, 0) == sgf_scan_ok(b, 6));
    assert(sgf_scan_moves(b, 0) == sgf_scan_moves(b, 6));
    assert(sgf_scan_moves(b, 6) == sgf_scan_moves(b, 11));
}


/// The hexadecimal digits of the moves of a board address, two per move.
proof fn lemma_portal_moves_shape(h: Seq<usize>)
    requires
        on_board_moves(h),
    ensures
        portal_moves(h).len() == 2 * h.len(),
        forall|k: int| 0 <= k < portal_moves(h).len() ==> is_hex_char(#[trigger] portal_moves(h)[k]),
        hex_pairs(portal_moves(h)) == coords(h),
    decreases h.len(),
{
    let f = |m: usize| portal_piece(m);
    if h.len() == 0 {
        assert(portal_moves(h) =~= Seq::<char>::empty());
        assert(coords(h) =~= Seq::<(usize, usize)>::empty());
    } else {
        let tail = h.drop_first();
        lemma_portal_moves_shape(tail);
        assert(h.map_values(f).drop_first() =~= tail.map_values(f));
        assert(portal_moves(h) == portal_piece(h[0]) + portal_moves(tail));
        let m = h[0];
        assert(m < 225);
        let x = (m % 15) as nat;
        let y = (m / 15) as nat;
        assert(hex_text(x) == seq![hex_char(x as int)]);
        assert(hex_text(y) == seq![hex_char(y as int)]);
        let pm = portal_moves(h);
        assert(pm[0] == hex_char(x as int) && pm[1] == hex_char(y as int));
        assert(pm.subrange(2, pm.len() as int) =~= portal_moves(tail));
        assert(hex_value(hex_char(x as int)) == x);
        assert(hex_value(hex_char(y as int)) == y);
        assert(coords(h) =~= seq![(m % 15, m / 15)] + coords(tail));
        assert forall|k: int| 0 <= k < pm.len() implies is_hex_char(#[trigger] pm[k]) by {
            if k >= 2 {
                assert(pm[k] == portal_moves(tail)[k - 2]);
            }
        }
    }
}

/// Keeping the hexadecimal digits of a text of hexadecimal digits keeps all.
proof fn lemma_filter_all_hex(s: Seq<char>)
    requires
        forall|k: int| 0 <= k < s.len() ==> is_hex_char(#[trigger] s[k]),
    ensures
        s.filter(|c: char| is_hex_char(c)) == s,
    decreases s.len(),
{
    reveal(Seq::filter);
    if s.len() > 0 {
        lemma_filter_all_hex(s.drop_last());
        assert(s.drop_last().push(s.last()) =~= s);
    }
}

/// A character first found in `a` is first found at the same place in `a + b`.
proof fn lemma_first_index_concat(a: Seq<char>, b: Seq<char>, c: char)
    requires
        first_index(a, c) is Some,
    ensures
        first_index(a + b, c) == first_index(a, c),
    decreases a.len(),
{
    if a[0] != c {
        lemma_first_index_concat(a.drop_first(), b, c);
        assert((a + b).drop_first() =~= a.drop_first() + b);
    }
}

/// A character missing from `a` and from `b` is missing from `a + b`.
proof fn lemma_first_index_none(t: Seq<char>, c: char)
    requires
        forall|k: int| 0 <= k < t.len() ==> t[k] != c,
    ensures
        first_index(t, c) is None,
    decreases t.len(),
{
    if t.len() > 0 {
        lemma_first_index_none(t.drop_first(), c);
    }
}

/// The first '?' of the V1 prefix is its last-but-three character.
#[verifier::rlimit(100)]
proof fn lemma_v1_question()
    ensures
        first_index(portal_v1_prefix(), '?') == Some(33int),
{
    reveal_with_fuel(first_index, 35);
}

/// The first '?' of the V2 prefix is its last-but-four character.
#[verifier::rlimit(100)]
proof fn lemma_v2_question()
    ensures
        first_index(portal_v2_prefix(), '?') == Some(29int),
{
    reveal_with_fuel(first_index, 31);
}

/// The parameter "mv=" or "mvs=" followed by a text without '&' gives
/// that text.
proof fn lemma_move_param_of(key: Seq<char>, pm: Seq<char>)
    requires
        key == mv_key() || key == mvs_key(),
        forall|k: int| 0 <= k < pm.len() ==> pm[k] != '&',
    ensures
        move_param(key + pm) == Some(pm),
{
    let q = key + pm;
    assert forall|k: int| 0 <= k < q.len() implies q[k] != '&' by {
        if k >= key.len() {
            assert(q[k] == pm[k - key.len()]);
        }
    }
    lemma_first_index_none(q, '&');
    lemma_move_param_step(q, q.len() as int);
    assert(q.subrange(0, q.len() as int) =~= q);
    if key == mv_key() {
        assert(q.subrange(0, 3) =~= mv_key());
        assert(q.subrange(3, q.len() as int) =~= pm);
    } else {
        assert(q.subrange(0, 3)[2] == 's');
        assert(q.subrange(0, 4) =~= mvs_key());
        assert(q.subrange(4, q.len() as int) =~= pm);
    }
}

/// After a prefix whose first '?' comes just before `key`, the part of the
/// address holding the moves is the text after the key (which has no '&').
#[verifier::rlimit(30)]
proof fn lemma_hex_part_of(p: Seq<char>, key: Seq<char>, q: int, pm: Seq<char>)
    requires
        key == mv_key() || key == mvs_key(),
        0 <= q < p.len(),
        first_index(p, '?') == Some(q),
        p.subrange(q + 1, p.len() as int) == key,
        forall|k: int| 0 <= k < pm.len() ==> pm[k] != '&',
    ensures
        portal_hex_part(p + pm) == pm,
{
    lemma_first_index_concat(p, pm, '?');
    let t = p + pm;
    assert(t.subrange(q + 1, t.len() as int) =~= key + pm);
    lemma_move_param_of(key, pm);
}

/// An address made of a prefix whose first '?' comes just before `key`,
/// then the moves, reads back the moves.
proof fn lemma_portal_read_of(p: Seq<char>, key: Seq<char>, q: int, h: Seq<usize>)
    requires
        on_board_moves(h),
        key == mv_key() || key == mvs_key(),
        0 <= q < p.len(),
        first_index(p, '?') == Some(q),
        p.subrange(q + 1, p.len() as int) == key,
    ensures
        portal_read(p + portal_moves(h)) == coords(h),
{
    lemma_portal_moves_shape(h);
    let pm = portal_moves(h);
    lemma_filter_all_hex(pm);
    assert forall|k: int| 0 <= k < pm.len() implies pm[k] != '&' by {
        assert(is_hex_char(pm[k]));
    }
    lemma_hex_part_of(p, key, q, pm);
}

/// A V1 address reads back its moves.
proof fn lemma_portal_v1_read(h: Seq<usize>)
    requires
        on_board_moves(h),
    ensures
        portal_read(portal_v1_prefix() + portal_moves(h)) == coords(h),
{
    lemma_v1_question();
    assert(portal_v1_prefix().subrange(34, 37) =~= mv_key());
    lemma_portal_read_of(portal_v1_prefix(), mv_key(), 33, h);
}

/// A V2 address reads back its moves.
proof fn lemma_portal_v2_read(h: Seq<usize>)
    requires
        on_board_moves(h),
    ensures
        portal_read(portal_v2_prefix() + portal_moves(h)) == coords(h),
{
    lemma_v2_question();
    assert(portal_v2_prefix().subrange(30, 34) =~= mvs_key());
    lemma_portal_read_of(portal_v2_prefix(), mvs_key(), 29, h);
}

/// A prefix of printable ASCII followed by the moves is ASCII and has no
/// white space at either end.
proof fn lemma_portal_text_plain(p: Seq<char>, h: Seq<usize>)
    requires
        on_board_moves(h),
        p.len() > 0,
        forall|k: int| 0 <= k < p.len() ==> 33 <= (#[trigger] p[k] as int) < 127,
    ensures
        all_ascii(p + portal_moves(h)),
        !ascii_ws((p + portal_moves(h))[0]),
        !ascii_ws((p + portal_moves(h)).last()),
{
    lemma_portal_moves_shape(h);
    let pm = portal_moves(h);
    let t = p + pm;
    assert forall|k: int| 0 <= k < t.len() implies (#[trigger] t[k] as int) < 128 by {
        if k >= p.len() {
            assert(t[k] == pm[k - p.len()]);
            assert(is_hex_char(pm[k - p.len()]));
        }
    }
    if pm.len() > 0 {
        assert(t.last() == pm.last());
        assert(is_hex_char(pm[pm.len() - 1]));
    } else {
        assert(t.last() == p.last());
    }
}

/// The RenjuPortal addresses of a move list on the board (either form) are
/// ASCII text without white space at either end (so trimming keeps them
/// whole), and read back as the column and row of every move in order.
pub proof fn lemma_portal_roundtrip(history: Seq<usize>)
    requires
        on_board_moves(history),
    ensures
        all_ascii(portal_v1_prefix() + portal_moves(history)),
        all_ascii(portal_v2_prefix() + portal_moves(history)),
        !ascii_ws((portal_v1_prefix() + portal_moves(history))[0]),
        !ascii_ws((portal_v1_prefix() + portal_moves(history)).last()),
        !ascii_ws((portal_v2_prefix() + portal_moves(history))[0]),
        !ascii_ws((portal_v2_prefix() + portal_moves(history)).last()),
        portal_read(portal_v1_prefix() + portal_moves(history)) == coords(history),
        portal_read(portal_v2_prefix() + portal_moves(history)) == coords(history),
{
    lemma_portal_v1_read(history);
    lemma_portal_v2_read(history);
    lemma_portal_text_plain(portal_v1_prefix(), history);
    lemma_portal_text_plain(portal_v2_prefix(), history);
}

} // verus!
