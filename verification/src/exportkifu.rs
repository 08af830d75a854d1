use vstd::prelude::*;
use vstd::utf8::{encode_utf8, is_char_boundary};
use vstd::string::StringSliceAdditionalSpecFns;
use crate::text::{push_char, push_str, push_dec, chars_of, dec_text, dec_char, to_lowercase, lowercase, all_ascii, ascii_lower, trim, trimmed};

verus! {

broadcast use vstd::seq_lib::group_seq_properties;

/// Column letter of column `x` (0 is 'a').
pub open spec fn col_char(x: int) -> char {
    (97 + x) as char
}

/// Lower-case hexadecimal digit character of `d` (0..16).
pub open spec fn hex_char(d: int) -> char {
    if d < 10 {
        (48 + d) as char
    } else {
        (87 + d) as char
    }
}

/// Lower-case hexadecimal representation of `n`, without leading zeros.
pub open spec fn hex_text(n: nat) -> Seq<char>
    decreases n,
{
    if n < 16 {
        seq![hex_char(n as int)]
    } else {
        hex_text(n / 16) + seq![hex_char((n % 16) as int)]
    }
}

/// Coordinate notation of one move: column letter, then the row counted from
/// the bottom (row 15 is the top line).
pub open spec fn notation_piece(m: usize) -> Seq<char> {
    seq![col_char(m as int % 15)] + dec_text((15 - m as int / 15) as nat)
}

/// Coordinate notation of a move list, e.g. "h8h9j7".
pub open spec fn notation_text(history: Seq<usize>) -> Seq<char> {
    history.map_values(|m: usize| notation_piece(m)).flatten()
}

/// Header of the SGF text.
pub open spec fn sgf_header() -> Seq<char> {
    seq!['(', ';', 'G', 'M', '[', '1', ']', 'S', 'Z', '[', '1', '5', ']']
}

/// SGF node of move number `i` (from 0): black on even numbers.
pub open spec fn sgf_piece(i: int, m: usize) -> Seq<char> {
    seq![';', if i % 2 == 0 { 'B' } else { 'W' }, '['] + seq![
        col_char(m as int % 15),
        col_char((m as int / 15) % 256),
        ']',
    ]
}

/// SGF text of a move list.
pub open spec fn sgf_text(history: Seq<usize>) -> Seq<char> {
    sgf_header() + (if history.len() > 0 {
        seq!['\n']
    } else {
        Seq::empty()
    }) + Seq::new(history.len(), |i: int| sgf_piece(i, history[i])).flatten() + seq![')']
}

/// Prefix of the RenjuPortal V1 board address.
pub open spec fn portal_v1_prefix() -> Seq<char> {
    seq![
        'h', 't', 't', 'p', 's', ':', '/', '/', 'v', '1', '.', 'r', 'e', 'n', 'j', 'u', 'p', 'o', 'r',
        't', 'a', 'l', '.', 'c', 'o', 'm', '/', 'b', 'o', 'a', 'r', 'd', '/', '?', 'm', 'v', '=',
    ]
}

/// Prefix of the RenjuPortal V2 board address.
pub open spec fn portal_v2_prefix() -> Seq<char> {
    seq![
        'h', 't', 't', 'p', 's', ':', '/', '/', 'r', 'e', 'n', 'j', 'u', 'p', 'o', 'r', 't', 'a',
        'l', '.', 'c', 'o', 'm', '/', 'b', 'o', 'a', 'r', 'd', '?', 'm', 'v', 's', '=',
    ]
}

/// Hexadecimal column then row of one move.
pub open spec fn portal_piece(m: usize) -> Seq<char> {
    hex_text((m % 15) as nat) + hex_text((m / 15) as nat)
}

/// The hexadecimal move list of a RenjuPortal address.
pub open spec fn portal_moves(history: Seq<usize>) -> Seq<char> {
    history.map_values(|m: usize| portal_piece(m)).flatten()
}

/// Rows stay within 0..=15, so the row number never goes below 0.
pub open spec fn notation_ok(history: Seq<usize>) -> bool {
    forall|i: int| 0 <= i < history.len() ==> #[trigger] history[i] / 15 <= 15
}

/// The row letter `97u8 + row` fits in a byte for every move.
pub open spec fn sgf_ok(history: Seq<usize>) -> bool {
    forall|i: int| 0 <= i < history.len() ==> (#[trigger] history[i] / 15) % 256 <= 158
}

fn push_hex(s: &mut String, n: usize)
    ensures
        final(s)@ == old(s)@ + hex_text(n as nat),
    decreases n,
{
    if n >= 16 {
        push_hex(s, n / 16);
    }
    let d = (n % 16) as u8;
    if d < 10 {
        push_char(s, (48u8 + d) as char);
    } else {
        push_char(s, (97u8 + (d - 10)) as char);
    }
}

/// Coordinate notation (e.g. "h8h9j7") of a move list given as cell indices.
pub fn generate_notation(history: &[usize]) -> (s: String)
    requires
        notation_ok(history@),
    ensures
        s@ == notation_text(history@),
{
    let mut s = String::new();
    let mut i: usize = 0;
    while i < history.len()
        invariant
            i <= history@.len(),
            notation_ok(history@),
            s@ == history@.take(i as int).map_values(|m: usize| notation_piece(m)).flatten(),
        decreases history@.len() - i,
    {
        let m = history[i];
        let x = m % 15;
        let y = m / 15;
        assert(y <= 15);
        let ghost before = s@;
        push_char(&mut s, (97u8 + x as u8) as char);
        push_dec(&mut s, 15 - y);
        proof {
            let f = |m: usize| notation_piece(m);
            assert(history@.take(i + 1) =~= history@.take(i as int).push(m));
            assert(history@.take(i + 1).map_values(f) =~= history@.take(i as int).map_values(f).push(
                notation_piece(m),
            ));
            history@.take(i as int).map_values(f).lemma_flatten_push(notation_piece(m));
            assert(s@ =~= before + notation_piece(m));
        }
        i += 1;
    }
    assert(history@.take(history@.len() as int) =~= history@);
    s
}

/// SGF text of a move list: header, then ";B[..]" and ";W[..]" nodes.
pub fn generate_sgf(history: &[usize]) -> (s: String)
    requires
        sgf_ok(history@),
    ensures
        s@ == sgf_text(history@),
{
    let mut s = String::new();
    push_str(&mut s, "(;GM[1]SZ[15]");
    proof {
        reveal_strlit("(;GM[1]SZ[15]");
        assert(s@ =~= sgf_header());
    }
    if history.len() > 0 {
        push_char(&mut s, '\n');
    }
    let ghost head = s@;
    let mut i: usize = 0;
    while i < history.len()
        invariant
            i <= history@.len(),
            sgf_ok(history@),
            s@ == head + Seq::new(i as nat, |k: int| sgf_piece(k, history@[k])).flatten(),
        decreases history@.len() - i,
    {
        let m = history[i];
        let x = m % 15;
        let y = m / 15;
        assert(y % 256 <= 158);
        assert((y as u8) as int == y % 256) by (bit_vector);
        let ghost before = s@;
        push_char(&mut s, ';');
        if i % 2 == 0 {
            push_char(&mut s, 'B');
        } else {
            push_char(&mut s, 'W');
        }
        push_char(&mut s, '[');
        push_char(&mut s, (97u8 + x as u8) as char);
        push_char(&mut s, (97u8 + y as u8) as char);
        push_char(&mut s, ']');
        proof {
            let pieces = Seq::new(i as nat, |k: int| sgf_piece(k, history@[k]));
            assert(Seq::new((i + 1) as nat, |k: int| sgf_piece(k, history@[k])) =~= pieces.push(
                sgf_piece(i as int, m),
            ));
            pieces.lemma_flatten_push(sgf_piece(i as int, m));
            assert(s@ =~= before + sgf_piece(i as int, m));
        }
        i += 1;
    }
    push_char(&mut s, ')');
    s
}

fn push_portal_moves(s: &mut String, history: &[usize])
    ensures
        final(s)@ == old(s)@ + portal_moves(history@),
{
    let ghost head = s@;
    let mut i: usize = 0;
    while i < history.len()
        invariant
            i <= history@.len(),
            s@ == head + history@.take(i as int).map_values(|m: usize| portal_piece(m)).flatten(),
        decreases history@.len() - i,
    {
        let m = history[i];
        let ghost before = s@;
        push_hex(s, m % 15);
        push_hex(s, m / 15);
        proof {
            let f = |m: usize| portal_piece(m);
            assert(history@.take(i + 1) =~= history@.take(i as int).push(m));
            assert(history@.take(i + 1).map_values(f) =~= history@.take(i as int).map_values(f).push(
                portal_piece(m),
            ));
            history@.take(i as int).map_values(f).lemma_flatten_push(portal_piece(m));
        }
        i += 1;
    }
    assert(history@.take(history@.len() as int) =~= history@);
}

/// RenjuPortal (V1) board address of a move list.
pub fn generate_renjuportal_v1(history: &[usize]) -> (s: String)
    ensures
        s@ == portal_v1_prefix() + portal_moves(history@),
{
    let mut s = String::new();
    push_str(&mut s, "https://v1.renjuportal.com/board/?mv=");
    proof {
        reveal_strlit("https://v1.renjuportal.com/board/?mv=");
        assert(s@ =~= portal_v1_prefix());
    }
    push_portal_moves(&mut s, history);
    s
}

/// RenjuPortal (V2) board address of a move list.
pub fn generate_renjuportal_v2(history: &[usize]) -> (s: String)
    ensures
        s@ == portal_v2_prefix() + portal_moves(history@),
{
    let mut s = String::new();
    push_str(&mut s, "https://renjuportal.com/board?mvs=");
    proof {
        reveal_strlit("https://renjuportal.com/board?mvs=");
        assert(s@ =~= portal_v2_prefix());
    }
    push_portal_moves(&mut s, history);
    s
}

/// Whether `c` is one of '0'..='9'.
pub open spec fn is_dec_digit(c: char) -> bool {
    '0' <= c <= '9'
}

/// Number of leading decimal digits of `s`.
pub open spec fn digit_run(s: Seq<char>) -> nat
    decreases s.len(),
{
    if s.len() > 0 && is_dec_digit(s[0]) {
        1 + digit_run(s.drop_first())
    } else {
        0
    }
}

/// Value of a string of decimal digits.
pub open spec fn dec_value(s: Seq<char>) -> nat
    decreases s.len(),
{
    if s.len() == 0 {
        0
    } else {
        dec_value(s.drop_last()) * 10 + ((s.last() as int) - 48) as nat
    }
}

/// A run of leading digits is no longer than the text.
pub proof fn lemma_digit_run_bound(s: Seq<char>)
    ensures
        digit_run(s) <= s.len(),
    decreases s.len(),
{
    if s.len() > 0 && is_dec_digit(s[0]) {
        lemma_digit_run_bound(s.drop_first());
    }
}

/// Moves read from (lower-case) coordinate notation: every letter 'a'..='o'
/// followed by a decimal row number 1..=15 (that fits in a usize) gives
/// (column, 15 - row); every other character is skipped.
pub open spec fn notation_moves(cs: Seq<char>) -> Seq<(usize, usize)>
    decreases cs.len(),
{
    if cs.len() == 0 {
        Seq::empty()
    } else if 'a' <= cs[0] <= 'o' {
        let n = digit_run(cs.drop_first()) as int;
        let v = dec_value(cs.subrange(1, 1 + n));
        let here: Seq<(usize, usize)> = if n > 0 && v <= usize::MAX && 1 <= v <= 15 {
            seq![(((cs[0] as int) - 97) as usize, (15 - v) as usize)]
        } else {
            Seq::empty()
        };
        proof {
            lemma_digit_run_bound(cs.drop_first());
        }
        here + notation_moves(cs.subrange(1 + n, cs.len() as int))
    } else {
        notation_moves(cs.drop_first())
    }
}

proof fn lemma_digit_run(s: Seq<char>, k: int)
    requires
        0 <= k <= s.len(),
        forall|i: int| 0 <= i < k ==> is_dec_digit(#[trigger] s[i]),
        k == s.len() || !is_dec_digit(s[k]),
    ensures
        digit_run(s) == k,
    decreases k,
{
    if k > 0 {
        lemma_digit_run(s.drop_first(), k - 1);
    }
}

/// The decimal value of `cs[start..end]`, when it fits in a usize.
pub open spec fn dec_value_fit(cs: Seq<char>, start: int, end: int) -> Option<usize> {
    if dec_value(cs.subrange(start, end)) <= usize::MAX {
        Some(dec_value(cs.subrange(start, end)) as usize)
    } else {
        None
    }
}

/// Reads the decimal digits that start at `start`: the end of the run and
/// its value, if that fits in a usize.
fn scan_digits(chars: &Vec<char>, start: usize) -> (r: (usize, Option<usize>))
    requires
        start <= chars@.len(),
    ensures
        start <= r.0 <= chars@.len(),
        r.0 - start == digit_run(chars@.subrange(start as int, chars@.len() as int)),
        r.1 == dec_value_fit(chars@, start as int, r.0 as int),
{
    let ghost cs = chars@;
    let mut j: usize = start;
    let mut val: Option<usize> = Some(0);
    assert(cs.subrange(start as int, start as int) =~= Seq::<char>::empty());
    while j < chars.len() && chars[j] >= '0' && chars[j] <= '9'
        invariant
            cs == chars@,
            start <= j <= cs.len(),
            forall|k: int| start <= k < j ==> is_dec_digit(#[trigger] cs[k]),
            val == dec_value_fit(cs, start as int, j as int),
        decreases cs.len() - j,
    {
        let d = (chars[j] as u32 - 48) as usize;
        proof {
            let digits = cs.subrange(start as int, j + 1);
            assert(digits.drop_last() =~= cs.subrange(start as int, j as int));
            assert(digits.last() == cs[j as int]);
        }
        val = match val {
            Some(v) => match v.checked_mul(10) {
                Some(w) => w.checked_add(d),
                None => None,
            },
            None => None,
        };
        j += 1;
    }
    proof {
        let tail = cs.subrange(start as int, cs.len() as int);
        lemma_digit_run(tail, j - start);
    }
    (j, val)
}

/// The move, if any, that the letter at `i` with the digits `i + 1 .. j` reads as.
spec fn notation_here(cs: Seq<char>, i: int, j: int) -> Seq<(usize, usize)> {
    let n = j - i - 1;
    let v = dec_value(cs.subrange(i + 1, j));
    if n > 0 && v <= usize::MAX && 1 <= v <= 15 {
        seq![(((cs[i] as int) - 97) as usize, (15 - v) as usize)]
    } else {
        Seq::empty()
    }
}

proof fn lemma_notation_letter(cs: Seq<char>, i: int, j: int)
    requires
        0 <= i < j <= cs.len(),
        'a' <= cs[i] <= 'o',
        j - i - 1 == digit_run(cs.subrange(i + 1, cs.len() as int)),
    ensures
        notation_moves(cs.subrange(i, cs.len() as int)) == notation_here(cs, i, j) + notation_moves(
            cs.subrange(j, cs.len() as int),
        ),
{
    let rest = cs.subrange(i, cs.len() as int);
    let n = j - i - 1;
    assert(rest.drop_first() =~= cs.subrange(i + 1, cs.len() as int));
    assert(rest.subrange(1, 1 + n) =~= cs.subrange(i + 1, j));
    assert(rest.subrange(1 + n, rest.len() as int) =~= cs.subrange(j, cs.len() as int));
}

proof fn lemma_notation_other(cs: Seq<char>, i: int)
    requires
        0 <= i < cs.len(),
        !('a' <= cs[i] <= 'o'),
    ensures
        notation_moves(cs.subrange(i, cs.len() as int)) == notation_moves(cs.subrange(i + 1, cs.len() as int)),
{
    assert(cs.subrange(i, cs.len() as int).drop_first() =~= cs.subrange(i + 1, cs.len() as int));
}

/// Moves (column, row from the top) read from coordinate notation such as
/// "h8h9j7", after lower-casing the text.
#[verifier::rlimit(30)]
pub fn parse_notation(text: &str) -> (moves: Vec<(usize, usize)>)
    ensures
        moves@ == notation_moves(lowercase(text@)),
        all_ascii(text@) ==> moves@ == notation_moves(text@.map_values(|c: char| ascii_lower(c))),
{
    let lowered = to_lowercase(text);
    let chars = chars_of(lowered.as_str());
    let ghost cs = chars@;
    let mut moves: Vec<(usize, usize)> = Vec::new();
    let mut i: usize = 0;
    assert(cs.subrange(0, cs.len() as int) =~= cs);
    while i < chars.len()
        invariant
            cs == chars@,
            i <= cs.len(),
            moves@ + notation_moves(cs.subrange(i as int, cs.len() as int)) == notation_moves(cs),
        decreases cs.len() - i,
    {
        let c = chars[i];
        let ghost before = moves@;
        if c >= 'a' && c <= 'o' {
            let x = (c as u32 - 97) as usize;
            let (j, val) = scan_digits(&chars, i + 1);
            let ok = match val {
                Some(row) => j > i + 1 && row >= 1 && row <= 15,
                None => false,
            };
            if ok {
                let row = val.unwrap();
                moves.push((x, 15 - row));
            }
            proof {
                lemma_notation_letter(cs, i as int, j as int);
                assert(moves@ =~= before + notation_here(cs, i as int, j as int));
                assert(moves@ + notation_moves(cs.subrange(j as int, cs.len() as int)) =~= before
                    + notation_moves(cs.subrange(i as int, cs.len() as int)));
            }
            i = j;
        } else {
            proof {
                lemma_notation_other(cs, i as int);
            }
            i += 1;
        }
    }
    proof {
        assert(cs.subrange(cs.len() as int, cs.len() as int) =~= Seq::<char>::empty());
        assert(moves@ + Seq::<(usize, usize)>::empty() =~= moves@);
    }
    moves
}

/// Column and row of each cell index.
pub open spec fn coords(history: Seq<usize>) -> Seq<(usize, usize)> {
    history.map_values(|m: usize| (m % 15, m / 15))
}

/// Every index names a cell of the board.
pub open spec fn on_board_moves(history: Seq<usize>) -> bool {
    forall|i: int| 0 <= i < history.len() ==> #[trigger] history[i] < 225
}

proof fn lemma_flatten_map_front<A, B>(s: Seq<A>, f: spec_fn(A) -> Seq<B>)
    requires
        s.len() > 0,
    ensures
        s.map_values(f).flatten() == f(s[0]) + s.drop_first().map_values(f).flatten(),
{
    assert(s.map_values(f).drop_first() =~= s.drop_first().map_values(f));
}

proof fn lemma_dec_small(row: int)
    requires
        1 <= row <= 15,
    ensures
        dec_text(row as nat).len() == if row < 10 { 1int } else { 2int },
        forall|k: int| 0 <= k < dec_text(row as nat).len() ==> is_dec_digit(#[trigger] dec_text(row as nat)[k]),
        dec_value(dec_text(row as nat)) == row,
        forall|k: int| 0 <= k < dec_text(row as nat).len() ==> ascii_lower(#[trigger] dec_text(row as nat)[k])
            == dec_text(row as nat)[k],
{
    reveal_with_fuel(dec_text, 2);
    reveal_with_fuel(dec_value, 3);
    let d = dec_text(row as nat);
    if row >= 10 {
        assert(d.drop_last() =~= seq!['1']);
    }
}

/// Coordinate notation only uses lower-case letters and digits, which ASCII
/// lower-casing keeps.
pub proof fn lemma_notation_text_lower(history: Seq<usize>)
    requires
        on_board_moves(history),
    ensures
        all_ascii(notation_text(history)),
        notation_text(history).map_values(|c: char| ascii_lower(c)) == notation_text(history),
    decreases history.len(),
{
    if history.len() == 0 {
        assert(notation_text(history) =~= Seq::<char>::empty());
        assert(notation_text(history).map_values(|c: char| ascii_lower(c)) =~= notation_text(history));
    } else {
        let f = |m: usize| notation_piece(m);
        lemma_flatten_map_front(history, f);
        let tail = history.drop_first();
        lemma_notation_text_lower(tail);
        let m = history[0];
        let row = 15 - m as int / 15;
        lemma_dec_small(row);
        let text = notation_text(history);
        let piece = notation_piece(m);
        assert(text == piece + notation_text(tail));
        assert forall|k: int| 0 <= k < text.len() implies (#[trigger] text[k] as int) < 128 && ascii_lower(text[k])
            == text[k] by {
            if k >= piece.len() {
                assert(text[k] == notation_text(tail)[k - piece.len()]);
                assert(notation_text(tail).map_values(|c: char| ascii_lower(c))[k - piece.len()]
                    == ascii_lower(notation_text(tail)[k - piece.len()]));
            } else if k > 0 {
                assert(text[k] == dec_text(row as nat)[k - 1]);
            }
        }
        assert(text.map_values(|c: char| ascii_lower(c)) =~= text);
    }
}

/// Reading back the coordinate notation of a move list on the board gives
/// the column and row of every move.
pub proof fn lemma_notation_roundtrip(history: Seq<usize>)
    requires
        on_board_moves(history),
    ensures
        notation_moves(notation_text(history)) == coords(history),
    decreases history.len(),
{
    if history.len() == 0 {
        assert(notation_text(history) =~= Seq::<char>::empty());
        assert(coords(history) =~= Seq::<(usize, usize)>::empty());
    } else {
        let f = |m: usize| notation_piece(m);
        lemma_flatten_map_front(history, f);
        let tail = history.drop_first();
        lemma_notation_roundtrip(tail);
        let m = history[0];
        let row = 15 - m as int / 15;
        lemma_dec_small(row);
        let d = dec_text(row as nat);
        let cs = notation_text(history);
        let rest = notation_text(tail);
        assert(cs == seq![col_char(m as int % 15)] + d + rest);
        let n = d.len() as int;
        // the digits stop where the next column letter (or the end) comes
        if rest.len() > 0 {
            lemma_flatten_map_front(tail, f);
            assert(rest[0] == col_char(tail[0] as int % 15));
        }
        lemma_digit_run(cs.drop_first(), n);
        assert(cs.subrange(1, 1 + n) =~= d);
        assert(cs.subrange(1 + n, cs.len() as int) =~= rest);
        assert(coords(history) =~= seq![(m % 15, m / 15)] + coords(tail));
    }
}

/// Index of the first `c` in `t`, if any.
pub open spec fn first_index(t: Seq<char>, c: char) -> Option<int>
    decreases t.len(),
{
    if t.len() == 0 {
        None
    } else if t[0] == c {
        Some(0)
    } else {
        match first_index(t.drop_first(), c) {
            Some(k) => Some(k + 1),
            None => None,
        }
    }
}

/// The first index of a character is an index of the text that holds it,
/// and no earlier index does.
pub proof fn lemma_first_index_bound(t: Seq<char>, c: char)
    ensures
        first_index(t, c) matches Some(k) ==> 0 <= k < t.len() && t[k] == c && forall|j: int|
            0 <= j < k ==> t[j] != c,
        first_index(t, c) is None ==> forall|j: int| 0 <= j < t.len() ==> t[j] != c,
    decreases t.len(),
{
    if t.len() > 0 && t[0] != c {
        lemma_first_index_bound(t.drop_first(), c);
        if first_index(t.drop_first(), c) is None {
            assert forall|j: int| 0 <= j < t.len() implies t[j] != c by {
                if j > 0 {
                    assert(t[j] == t.drop_first()[j - 1]);
                }
            }
        } else {
            let k = first_index(t.drop_first(), c)->0;
            assert forall|j: int| 0 <= j < k + 1 implies t[j] != c by {
                if j > 0 {
                    assert(t[j] == t.drop_first()[j - 1]);
                }
            }
        }
    }
}

/// Whether `pat` occurs in `t` at index `k`.
pub open spec fn occurs_at(t: Seq<char>, pat: Seq<char>, k: int) -> bool {
    0 <= k && k + pat.len() <= t.len() && t.subrange(k, k + pat.len()) == pat
}

/// Index of the first occurrence of `pat` in `t`, searching from `from`.
pub open spec fn find_from(t: Seq<char>, pat: Seq<char>, from: int) -> Option<int>
    decreases t.len() + 1 - from,
{
    if from < 0 || from + pat.len() > t.len() {
        None
    } else if occurs_at(t, pat, from) {
        Some(from)
    } else {
        find_from(t, pat, from + 1)
    }
}

/// "mv=".
pub open spec fn mv_key() -> Seq<char> {
    seq!['m', 'v', '=']
}

/// "mvs=".
pub open spec fn mvs_key() -> Seq<char> {
    seq!['m', 'v', 's', '=']
}

/// The value of the first '&'-separated parameter of `q` that is named
/// "mv" or "mvs", if any.
pub open spec fn move_param(q: Seq<char>) -> Option<Seq<char>>
    decreases q.len(),
{
    let e = match first_index(q, '&') {
        Some(k) => k,
        None => q.len() as int,
    };
    proof {
        lemma_first_index_bound(q, '&');
    }
    let piece = q.subrange(0, e);
    if occurs_at(piece, mv_key(), 0) {
        Some(piece.subrange(3, piece.len() as int))
    } else if occurs_at(piece, mvs_key(), 0) {
        Some(piece.subrange(4, piece.len() as int))
    } else if e >= q.len() {
        None
    } else {
        move_param(q.subrange(e + 1, q.len() as int))
    }
}

/// One step of `move_param`: the parameter that ends at the first '&'.
pub proof fn lemma_move_param_step(q: Seq<char>, e: int)
    requires
        e == (match first_index(q, '&') {
            Some(k) => k,
            None => q.len() as int,
        }),
    ensures
        0 <= e <= q.len(),
        move_param(q) == (if occurs_at(q.subrange(0, e), mv_key(), 0) {
            Some(q.subrange(0, e).subrange(3, e))
        } else if occurs_at(q.subrange(0, e), mvs_key(), 0) {
            Some(q.subrange(0, e).subrange(4, e))
        } else if e >= q.len() {
            None
        } else {
            move_param(q.subrange(e + 1, q.len() as int))
        }),
{
    lemma_first_index_bound(q, '&');
}

/// A match found by `find_from` lies inside the text.
pub proof fn lemma_find_from_bound(t: Seq<char>, pat: Seq<char>, from: int)
    ensures
        find_from(t, pat, from) matches Some(k) ==> from <= k && k + pat.len() <= t.len(),
    decreases t.len() + 1 - from,
{
    if !(from < 0 || from + pat.len() > t.len()) && !occurs_at(t, pat, from) {
        lemma_find_from_bound(t, pat, from + 1);
    }
}

/// The part of a (trimmed) RenjuPortal address that holds the moves.
pub open spec fn portal_hex_part(t: Seq<char>) -> Seq<char> {
    match first_index(t, '?') {
        Some(q) => match move_param(t.subrange(q + 1, t.len() as int)) {
            Some(v) => v,
            None => t,
        },
        None => match find_from(t, mv_key(), 0) {
            Some(k) => t.subrange(k + 3, t.len() as int),
            None => match find_from(t, mvs_key(), 0) {
                Some(k) => t.subrange(k + 4, t.len() as int),
                None => t,
            },
        },
    }
}

/// Whether `c` is an ASCII hexadecimal digit.
pub open spec fn is_hex_char(c: char) -> bool {
    ('0' <= c <= '9') || ('a' <= c <= 'f') || ('A' <= c <= 'F')
}

/// Value of a hexadecimal digit.
pub open spec fn hex_value(c: char) -> int {
    if '0' <= c <= '9' {
        c as int - 48
    } else if 'a' <= c <= 'f' {
        c as int - 87
    } else {
        c as int - 55
    }
}

/// Moves read from hexadecimal digits taken two at a time (a last odd digit
/// is ignored); pairs with a coordinate of 15 are skipped.
pub open spec fn hex_pairs(h: Seq<char>) -> Seq<(usize, usize)>
    decreases h.len(),
{
    if h.len() < 2 {
        Seq::empty()
    } else {
        let x = hex_value(h[0]);
        let y = hex_value(h[1]);
        (if x < 15 && y < 15 {
            seq![(x as usize, y as usize)]
        } else {
            Seq::empty()
        }) + hex_pairs(h.subrange(2, h.len() as int))
    }
}

/// Moves read from a RenjuPortal address (V1 or V2) after trimming it.
pub open spec fn portal_read(t: Seq<char>) -> Seq<(usize, usize)> {
    hex_pairs(portal_hex_part(t).filter(|c: char| is_hex_char(c)))
}

fn first_char_index(t: &Vec<char>, c: char, from: usize) -> (r: Option<usize>)
    requires
        from <= t@.len(),
    ensures
        match r {
            Some(k) => from <= k < t@.len() && first_index(t@.subrange(from as int, t@.len() as int), c) == Some(
                k - from,
            ),
            None => first_index(t@.subrange(from as int, t@.len() as int), c) is None,
        },
{
    let mut k = t.len();
    let mut r: Option<usize> = None;
    proof {
        lemma_first_index_bound(t@.subrange(from as int, t@.len() as int), c);
    }
    // scan backwards so that the last hit kept is the first occurrence
    while k > from
        invariant
            from <= k <= t@.len(),
            match r {
                Some(j) => k <= j < t@.len() && first_index(t@.subrange(k as int, t@.len() as int), c) == Some(
                    j - k,
                ),
                None => first_index(t@.subrange(k as int, t@.len() as int), c) is None,
            },
        decreases k - from,
    {
        k -= 1;
        proof {
            assert(t@.subrange(k as int, t@.len() as int).drop_first() =~= t@.subrange(k + 1, t@.len() as int));
        }
        if t[k] == c {
            r = Some(k);
        }
    }
    r
}

fn occurs_at_exec(t: &Vec<char>, pat: &Vec<char>, k: usize) -> (b: bool)
    ensures
        b == occurs_at(t@, pat@, k as int),
{
    if k > t.len() || pat.len() > t.len() - k {
        return false;
    }
    let n = t.len();
    let mut i: usize = 0;
    while i < pat.len()
        invariant
            n == t@.len(),
            k <= t@.len(),
            k + pat@.len() <= t@.len(),
            i <= pat@.len(),
            forall|j: int| 0 <= j < i ==> t@[k + j] == pat@[j],
        decreases pat@.len() - i,
    {
        assert(k + i < n);
        if t[k + i] != pat[i] {
            assert(t@.subrange(k as int, k + pat@.len())[i as int] != pat@[i as int]);
            return false;
        }
        i += 1;
    }
    assert(t@.subrange(k as int, k + pat@.len()) =~= pat@);
    true
}

fn find_exec(t: &Vec<char>, pat: &Vec<char>) -> (r: Option<usize>)
    ensures
        match r {
            Some(k) => find_from(t@, pat@, 0) == Some(k as int),
            None => find_from(t@, pat@, 0) is None,
        },
{
    if pat.len() > t.len() {
        return None;
    }
    let last = t.len() - pat.len();
    let mut k: usize = last;
    let mut r: Option<usize> = if occurs_at_exec(t, pat, last) {
        Some(last)
    } else {
        None
    };
    assert(find_from(t@, pat@, last + 1) is None);
    while k > 0
        invariant
            k <= last,
            last + pat@.len() == t@.len(),
            match r {
                Some(j) => find_from(t@, pat@, k as int) == Some(j as int),
                None => find_from(t@, pat@, k as int) is None,
            },
        decreases k,
    {
        k -= 1;
        if occurs_at_exec(t, pat, k) {
            r = Some(k);
        }
    }
    r
}

fn sub_vec(t: &Vec<char>, a: usize, b: usize) -> (r: Vec<char>)
    requires
        a <= b <= t@.len(),
    ensures
        r@ == t@.subrange(a as int, b as int),
{
    let mut r: Vec<char> = Vec::new();
    let mut i = a;
    while i < b
        invariant
            a <= i <= b <= t@.len(),
            r@ == t@.subrange(a as int, i as int),
        decreases b - i,
    {
        r.push(t[i]);
        i += 1;
    }
    r
}

#[verifier::rlimit(60)]
fn move_param_exec(q: &Vec<char>) -> (r: Option<Vec<char>>)
    ensures
        match move_param(q@) {
            Some(v) => r is Some && r->0@ == v,
            None => r is None,
        },
{
    let mv = chars_of("mv=");
    let mvs = chars_of("mvs=");
    proof {
        reveal_strlit("mv=");
        reveal_strlit("mvs=");
        assert(mv@ =~= mv_key());
        assert(mvs@ =~= mvs_key());
        assert(q@.subrange(0, q@.len() as int) =~= q@);
    }
    let mut start: usize = 0;
    while start <= q.len()
        invariant
            start <= q@.len(),
            mv@ == mv_key(),
            mvs@ == mvs_key(),
            move_param(q@.subrange(start as int, q@.len() as int)) == move_param(q@),
        decreases q@.len() + 1 - start,
    {
        let ghost rest = q@.subrange(start as int, q@.len() as int);
        proof {
            lemma_first_index_bound(rest, '&');
        }
        let e = match first_char_index(q, '&', start) {
            Some(k) => k,
            None => q.len(),
        };
        proof {
            lemma_move_param_step(rest, e - start);
        }
        let piece = sub_vec(q, start, e);
        proof {
            assert(piece@ =~= rest.subrange(0, e - start));
        }
        if occurs_at_exec(&piece, &mv, 0) {
            let v = sub_vec(&piece, 3, piece.len());
            return Some(v);
        } else if occurs_at_exec(&piece, &mvs, 0) {
            let v = sub_vec(&piece, 4, piece.len());
            return Some(v);
        }
        if e >= q.len() {
            return None;
        }
        proof {
            assert(rest.subrange(e - start + 1, rest.len() as int) =~= q@.subrange(e + 1, q@.len() as int));
        }
        start = e + 1;
    }
    None
}

fn hex_digit_value(c: char) -> (v: u32)
    requires
        is_hex_char(c),
    ensures
        v == hex_value(c),
{
    if c >= '0' && c <= '9' {
        c as u32 - 48
    } else if c >= 'a' && c <= 'f' {
        c as u32 - 87
    } else {
        c as u32 - 55
    }
}

/// Moves (column, row) read from a RenjuPortal address (V1 "mv=" or V2
/// "mvs="), or from a bare hexadecimal move list.
pub fn parse_renjuportal(text: &str) -> (moves: Vec<(usize, usize)>)
    ensures
        moves@ == portal_read(trimmed(text@)),
{
    let t_str = trim(text);
    let t = chars_of(t_str);
    let ghost ts = t@;
    proof {
        assert(ts.subrange(0, ts.len() as int) =~= ts);
        lemma_first_index_bound(ts, '?');
    }
    let n = t.len();
    let hex_part: Vec<char> = match first_char_index(&t, '?', 0) {
        Some(q) => {
            assert(q < n);
            let query = sub_vec(&t, q + 1, n);
            proof {
                assert(ts.subrange(0, ts.len() as int) =~= ts);
            }
            match move_param_exec(&query) {
                Some(v) => v,
                None => sub_vec(&t, 0, t.len()),
            }
        },
        None => {
            proof {
                assert(ts.subrange(0, ts.len() as int) =~= ts);
            }
            let mv = chars_of("mv=");
            let mvs = chars_of("mvs=");
            proof {
                reveal_strlit("mv=");
                reveal_strlit("mvs=");
                assert(mv@ =~= mv_key());
                assert(mvs@ =~= mvs_key());
            }
            proof {
                lemma_find_from_bound(ts, mv_key(), 0);
                lemma_find_from_bound(ts, mvs_key(), 0);
            }
            match find_exec(&t, &mv) {
                Some(k) => {
                    assert(k + 3 <= t.len());
                    sub_vec(&t, k + 3, t.len())
                },
                None => match find_exec(&t, &mvs) {
                    Some(k) => {
                        assert(k + 4 <= t.len());
                        sub_vec(&t, k + 4, t.len())
                    },
                    None => sub_vec(&t, 0, t.len()),
                },
            }
        },
    };
    assert(hex_part@ == portal_hex_part(ts));
    let ghost hp = hex_part@;
    let mut hexes: Vec<char> = Vec::new();
    let mut i: usize = 0;
    while i < hex_part.len()
        invariant
            hp == hex_part@,
            i <= hp.len(),
            hexes@ == hp.subrange(0, i as int).filter(|c: char| is_hex_char(c)),
        decreases hp.len() - i,
    {
        let c = hex_part[i];
        proof {
            let f = |c: char| is_hex_char(c);
            assert(hp.subrange(0, i + 1).drop_last() =~= hp.subrange(0, i as int));
            reveal_with_fuel(Seq::<_>::filter, 1);
        }
        if (c >= '0' && c <= '9') || (c >= 'a' && c <= 'f') || (c >= 'A' && c <= 'F') {
            hexes.push(c);
        }
        i += 1;
    }
    proof {
        assert(hp.subrange(0, hp.len() as int) =~= hp);
    }
    let ghost hs = hexes@;
    let mut moves: Vec<(usize, usize)> = Vec::new();
    let mut k: usize = 0;
    while k < hexes.len() && hexes.len() - k >= 2
        invariant
            hs == hexes@,
            k <= hs.len(),
            forall|j: int| 0 <= j < hs.len() ==> is_hex_char(#[trigger] hs[j]),
            moves@ + hex_pairs(hs.subrange(k as int, hs.len() as int)) == hex_pairs(hs),
        decreases hs.len() - k,
    {
        let x = hex_digit_value(hexes[k]);
        let y = hex_digit_value(hexes[k + 1]);
        let ghost before = moves@;
        if x < 15 && y < 15 {
            moves.push((x as usize, y as usize));
        }
        proof {
            let rest = hs.subrange(k as int, hs.len() as int);
            assert(rest.subrange(2, rest.len() as int) =~= hs.subrange(k + 2, hs.len() as int));
            assert(moves@ + hex_pairs(hs.subrange(k + 2, hs.len() as int)) =~= before + hex_pairs(rest));
        }
        k += 2;
    }
    proof {
        assert(hs.subrange(0, hs.len() as int) =~= hs);
        assert(hex_pairs(hs.subrange(k as int, hs.len() as int)) =~= Seq::<(usize, usize)>::empty());
        assert(moves@ + Seq::<(usize, usize)>::empty() =~= moves@);
    }
    moves
}

/// Index of the first byte `c` of `b` at or after `from`, if any.
pub open spec fn first_byte_from(b: Seq<u8>, c: u8, from: int) -> Option<int>
    decreases b.len() - from,
{
    if from < 0 || from >= b.len() {
        None
    } else if b[from] == c {
        Some(from)
    } else {
        first_byte_from(b, c, from + 1)
    }
}

/// Whether the byte `c` occurs in `b` at or after `from`.
pub open spec fn has_byte_from(b: Seq<u8>, c: u8, from: int) -> bool {
    exists|k: int| from <= k < b.len() && k >= 0 && b[k] == c
}

/// Whether `c` is one of the bytes 'a'..='o'.
pub open spec fn is_coord_byte(c: u8) -> bool {
    97 <= c <= 111
}

/// Whether the '[' at `p` opens a coordinate: two letters 'a'..='o' follow
/// and a ']' comes somewhere after.
pub open spec fn sgf_coord_at(b: Seq<u8>, p: int) -> bool {
    &&& p + 2 < b.len()
    &&& has_byte_from(b, 93, p + 1)
    &&& is_coord_byte(b[p + 1])
    &&& is_coord_byte(b[p + 2])
}

/// Start of the two bytes in front of the '[' at `p` (fewer at the start).
pub open spec fn sgf_prefix_start(p: int) -> int {
    if p >= 2 {
        p - 2
    } else {
        0
    }
}

/// Whether the bytes in front of the '[' at `p` read ";b" or ";w".
pub open spec fn sgf_move_prefix(b: Seq<u8>, p: int) -> bool {
    p >= 2 && b[p - 2] == 59 && (b[p - 1] == 98 || b[p - 1] == 119)
}

/// Whether reading SGF moves from byte `i` of the (lower-cased) UTF-8 text
/// `b` stays on character boundaries, as slicing the text requires.
pub open spec fn sgf_scan_ok(b: Seq<u8>, i: int) -> bool
    decreases b.len() + 2 - i,
{
    if i < 0 || i > b.len() || !is_char_boundary(b, i) {
        false
    } else {
        match first_byte_from(b, 91, i) {
            None => true,
            Some(p) => {
                proof {
                    lemma_first_byte_bound(b, 91, i);
                }
                (sgf_coord_at(b, p) ==> is_char_boundary(b, sgf_prefix_start(p))) && sgf_scan_ok(b, p + 2)
            },
        }
    }
}

/// Moves read from SGF text from byte `i` on: each '[' followed by two
/// letters 'a'..='o' (column, row) and, later, a ']', and preceded by ";b"
/// or ";w".
pub open spec fn sgf_scan_moves(b: Seq<u8>, i: int) -> Seq<(usize, usize)>
    decreases b.len() + 2 - i,
{
    if i < 0 || i > b.len() {
        Seq::empty()
    } else {
        match first_byte_from(b, 91, i) {
            None => Seq::empty(),
            Some(p) => {
                proof {
                    lemma_first_byte_bound(b, 91, i);
                }
                (if sgf_coord_at(b, p) && sgf_move_prefix(b, p) {
                    seq![((b[p + 1] - 97) as usize, (b[p + 2] - 97) as usize)]
                } else {
                    Seq::empty()
                }) + sgf_scan_moves(b, p + 2)
            },
        }
    }
}

/// The first byte found lies at or after the start and inside the bytes.
pub proof fn lemma_first_byte_bound(b: Seq<u8>, c: u8, from: int)
    ensures
        first_byte_from(b, c, from) matches Some(k) ==> from <= k < b.len() && b[k] == c && forall|j: int|
            from <= j < k ==> b[j] != c,
        first_byte_from(b, c, from) is None && from >= 0 ==> forall|j: int| from <= j < b.len() ==> b[j] != c,
    decreases b.len() - from,
{
    if !(from < 0 || from >= b.len()) && b[from] != c {
        lemma_first_byte_bound(b, c, from + 1);
    }
}

/// The SGF text as the scan reads it: the UTF-8 bytes of the lower-cased text.
pub open spec fn sgf_bytes(text: Seq<char>) -> Seq<u8> {
    encode_utf8(lowercase(text))
}

/// The move read at the '[' at `p`, if any.
spec fn sgf_here(b: Seq<u8>, p: int) -> Seq<(usize, usize)> {
    if sgf_coord_at(b, p) && sgf_move_prefix(b, p) {
        seq![((b[p + 1] - 97) as usize, (b[p + 2] - 97) as usize)]
    } else {
        Seq::empty()
    }
}

proof fn lemma_sgf_step(b: Seq<u8>, i: int, p: int)
    requires
        0 <= i <= b.len(),
        first_byte_from(b, 91, i) == Some(p),
    ensures
        is_char_boundary(b, i) ==> sgf_scan_ok(b, i) == ((sgf_coord_at(b, p) ==> is_char_boundary(b, sgf_prefix_start(p))) && sgf_scan_ok(
            b,
            p + 2,
        )),
        sgf_scan_moves(b, i) == sgf_here(b, p) + sgf_scan_moves(b, p + 2),
{
}

fn find_byte(b: &[u8], c: u8, from: usize) -> (p: usize)
    requires
        from <= b@.len(),
    ensures
        from <= p <= b@.len(),
        p < b@.len() ==> first_byte_from(b@, c, from as int) == Some(p as int),
        p == b@.len() ==> first_byte_from(b@, c, from as int) is None,
{
    let n = b.len();
    let mut p = from;
    while p < n && b[p] != c
        invariant
            n == b@.len(),
            from <= p <= n,
            first_byte_from(b@, c, from as int) == first_byte_from(b@, c, p as int),
        decreases n - p,
    {
        p += 1;
    }
    p
}

fn has_byte(b: &[u8], c: u8, from: usize) -> (r: bool)
    requires
        from <= b@.len(),
    ensures
        r == has_byte_from(b@, c, from as int),
{
    let n = b.len();
    let mut q = from;
    while q < n
        invariant
            n == b@.len(),
            from <= q <= n,
            forall|k: int| from <= k < q ==> b@[k] != c,
        decreases n - q,
    {
        if b[q] == c {
            return true;
        }
        q += 1;
    }
    false
}

/// Scans lower-cased SGF bytes; `None` where slicing the text would leave a
/// character boundary.
fn scan_sgf(t: &str) -> (r: Vec<(usize, usize)>)
    ensures
        r@ == sgf_scan_moves(t.spec_bytes(), 0),
{
    let b = t.as_bytes();
    let ghost bs = b@;
    let n = b.len();
    let mut moves: Vec<(usize, usize)> = Vec::new();
    let mut i: usize = 0;
    proof {
        vstd::utf8::encode_utf8_valid_utf8(t@);
        assert(moves@ + sgf_scan_moves(bs, 0) =~= sgf_scan_moves(bs, 0));
    }
    loop
        invariant
            bs == b@,
            bs == t.spec_bytes(),
            n == bs.len(),
            i <= n,
            moves@ + sgf_scan_moves(bs, i as int) == sgf_scan_moves(bs, 0),
        decreases n + 2 - i,
    {
        let p = find_byte(b, 91, i);
        if p >= n {
            proof {
                assert(moves@ + Seq::<(usize, usize)>::empty() =~= moves@);
            }
            return moves;
        }
        proof {
            lemma_sgf_step(bs, i as int, p as int);
        }
        let start = p + 1;
        let mut coord = false;
        if start < n && n - start > 1 {
            if has_byte(b, 93, start) && b[start] >= 97 && b[start] <= 111 && b[start + 1] >= 97 && b[start
                + 1] <= 111 {
                coord = true;
            }
        }
        assert(coord == sgf_coord_at(bs, p as int));
        let ghost before = moves@;
        if coord {
            let ps = if p >= 2 {
                p - 2
            } else {
                0
            };
            if p >= 2 && b[p - 2] == 59 && (b[p - 1] == 98 || b[p - 1] == 119) {
                moves.push(((b[start] - 97) as usize, (b[start + 1] - 97) as usize));
            }
        }
        proof {
            assert(moves@ =~= before + sgf_here(bs, p as int));
            assert(moves@ + sgf_scan_moves(bs, p + 2) =~= before + sgf_scan_moves(bs, i as int));
        }
        if n - p < 2 {
            proof {
                assert(sgf_scan_moves(bs, p + 2) =~= Seq::<(usize, usize)>::empty());
                assert(moves@ + Seq::<(usize, usize)>::empty() =~= moves@);
            }
            return moves;
        }
        i = p + 2;
    }
}

/// Moves (column, row) read from SGF text after lower-casing it: each
/// ";B[..]" or ";W[..]" node with two letters 'a'..='o'.
pub fn parse_sgf(text: &str) -> (moves: Vec<(usize, usize)>)
    ensures
        moves@ == sgf_scan_moves(sgf_bytes(text@), 0),
        all_ascii(text@) ==> moves@ == sgf_scan_moves(encode_utf8(text@.map_values(|c: char| ascii_lower(c))), 0),
{
    let lowered = to_lowercase(text);
    scan_sgf(lowered.as_str())
}

} // verus!
