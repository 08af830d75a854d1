use vstd::prelude::*;

verus! {

/// Appends one character (`String::push`).
#[verifier::external_body]
pub fn push_char(s: &mut String, c: char)
    ensures
        final(s)@ == old(s)@.push(c),
{
    s.push(c);
}

/// Appends a string slice (`String::push_str`).
#[verifier::external_body]
pub fn push_str(s: &mut String, t: &str)
    ensures
        final(s)@ == old(s)@ + t@,
{
    s.push_str(t);
}

/// The characters of a string slice, in order.
pub fn chars_of(s: &str) -> (v: Vec<char>)
    ensures
        v@ == s@,
{
    let mut v: Vec<char> = Vec::new();
    for c in it: s.chars()
        invariant
            v@ == it.seq().take(it.index()),
            it.seq() == s@,
    {
        v.push(c);
    }
    v
}

/// Whether every character is ASCII.
pub open spec fn all_ascii(s: Seq<char>) -> bool {
    forall|i: int| 0 <= i < s.len() ==> (#[trigger] s[i] as int) < 128
}

/// ASCII lower-casing of one character: 'A'..='Z' become 'a'..='z'.
pub open spec fn ascii_lower(c: char) -> char {
    if 'A' <= c <= 'Z' {
        ((c as int) + 32) as char
    } else {
        c
    }
}

/// What `str::to_lowercase` returns for a string (Unicode lower case mapping).
pub uninterp spec fn lowercase(s: Seq<char>) -> Seq<char>;

/// `str::to_lowercase`. The result is named `lowercase`; on an ASCII string
/// it lower-cases 'A'..='Z' and keeps every other character, as the standard
/// library documents for ASCII text. Other characters follow Unicode, which
/// is not spelled out here.
#[verifier::external_body]
pub fn to_lowercase(s: &str) -> (r: String)
    ensures
        r@ == lowercase(s@),
        all_ascii(s@) ==> r@ == s@.map_values(|c: char| ascii_lower(c)),
{
    s.to_lowercase()
}

/// The six ASCII characters that Unicode counts as white space.
pub open spec fn ascii_ws(c: char) -> bool {
    c == ' ' || c == '\t' || c == '\n' || c == '\r' || c == '\x0b' || c == '\x0c'
}

/// Whether `r` is a contiguous piece of `s`.
pub open spec fn is_piece_of(r: Seq<char>, s: Seq<char>) -> bool {
    exists|i: int, j: int| 0 <= i <= j <= s.len() && r == s.subrange(i, j)
}

/// What `str::trim` returns for a string (leading and trailing Unicode white
/// space removed).
pub uninterp spec fn trimmed(s: Seq<char>) -> Seq<char>;

/// `str::trim`. The result is named `trimmed`; it is a piece of `s` that
/// keeps the order of the characters, and an ASCII string that neither starts
/// nor ends with white space comes back whole. Which non-ASCII characters
/// count as white space (Unicode `White_Space`) is not spelled out here.
#[verifier::external_body]
pub fn trim(s: &str) -> (r: &str)
    ensures
        r@ == trimmed(s@),
        is_piece_of(r@, s@),
        all_ascii(s@) && (s@.len() == 0 || (!ascii_ws(s@[0]) && !ascii_ws(s@.last()))) ==> r@ == s@,
{
    s.trim()
}

/// Decimal digit character of `d` (0..10).
pub open spec fn dec_char(d: int) -> char {
    (48 + d) as char
}

/// Decimal representation of `n`, without leading zeros.
pub open spec fn dec_text(n: nat) -> Seq<char>
    decreases n,
{
    if n < 10 {
        seq![dec_char(n as int)]
    } else {
        dec_text(n / 10) + seq![dec_char((n % 10) as int)]
    }
}

/// Appends the decimal representation of `n`.
pub fn push_dec(s: &mut String, n: usize)
    ensures
        final(s)@ == old(s)@ + dec_text(n as nat),
    decreases n,
{
    if n >= 10 {
        push_dec(s, n / 10);
    }
    let d = (n % 10) as u8;
    push_char(s, (48u8 + d) as char);
}

} // verus!
