use vstd::prelude::*;

verus! {

/// The value of a decimal digit.
pub open spec fn digit_value(c: char) -> int {
    c as int - 48
}

/// Whether `c` is a decimal digit.
pub open spec fn is_digit(c: char) -> bool {
    '0' <= c <= '9'
}

/// Whether every character is a decimal digit.
pub open spec fn all_digits(s: Seq<char>) -> bool {
    forall|i: int| 0 <= i < s.len() ==> #[trigger] is_digit(s[i])
}

/// The value of a string of decimal digits.
pub open spec fn digits_value(s: Seq<char>) -> int
    decreases s.len(),
{
    if s.len() == 0 {
        0
    } else {
        digits_value(s.drop_last()) * 10 + digit_value(s.last())
    }
}

/// What `i32::from_str` gives: an optional `+` or `-`, then one or more
/// decimal digits, within the range of `i32`; `None` otherwise.
pub open spec fn i32_text(s: Seq<char>) -> Option<int> {
    let neg = s.len() > 0 && s[0] == '-';
    let body = if s.len() > 0 && (s[0] == '-' || s[0] == '+') { s.drop_first() } else { s };
    if body.len() == 0 || !all_digits(body) {
        None
    } else {
        let v = if neg { -digits_value(body) } else { digits_value(body) };
        if i32::MIN <= v <= i32::MAX {
            Some(v)
        } else {
            None
        }
    }
}

proof fn lemma_digits_nonneg(s: Seq<char>)
    requires
        forall|i: int| 0 <= i < s.len() ==> #[trigger] is_digit(s[i]),
    ensures
        0 <= digits_value(s),
    decreases s.len(),
{
    if s.len() > 0 {
        let p = s.drop_last();
        assert forall|i: int| 0 <= i < p.len() implies #[trigger] is_digit(p[i]) by {
            assert(p[i] == s[i]);
        }
        lemma_digits_nonneg(p);
        assert(is_digit(s[s.len() - 1]));
        assert(digit_value(s.last()) >= 0);
    }
}

/// `i32::from_str` on `s[lo..]`.
pub fn parse_i32(s: &Vec<char>, lo: usize) -> (r: Option<i32>)
    requires
        lo <= s@.len(),
    ensures
        match i32_text(s@.skip(lo as int)) {
            Some(v) => r == Some(v as i32),
            None => r is None,
        },
{
    let ghost t = s@.skip(lo as int);
    let n = s.len();
    let mut i = lo;
    let mut neg = false;
    if i < n && (s[i] == '-' || s[i] == '+') {
        neg = s[i] == '-';
        i += 1;
    }
    let start = i;
    let ghost body = s@.subrange(start as int, n as int);
    proof {
        assert(body =~= (if t.len() > 0 && (t[0] == '-' || t[0] == '+') { t.drop_first() } else { t }));
        assert(neg == (t.len() > 0 && t[0] == '-'));
    }
    if start == n {
        proof {
            assert(body.len() == 0);
        }
        return None;
    }
    let mut v: i64 = 0;
    let mut big = false;
    while i < n
        invariant
            start <= i <= n,
            n == s@.len(),
            body == s@.subrange(start as int, n as int),
            t == s@.skip(lo as int),
            body == (if t.len() > 0 && (t[0] == '-' || t[0] == '+') { t.drop_first() } else { t }),
            neg == (t.len() > 0 && t[0] == '-'),
            forall|j: int| start <= j < i ==> #[trigger] is_digit(s@[j]),
            !big ==> v == digits_value(body.take(i - start)),
            big ==> digits_value(body.take(i - start)) > 2147483648,
            0 <= v <= 2147483648,
        decreases n - i,
    {
        let c = s[i];
        if !('0' <= c && c <= '9') {
            proof {
                let b2 = if t.len() > 0 && (t[0] == '-' || t[0] == '+') { t.drop_first() } else { t };
                assert(b2 == body);
                assert(b2[i - start] == c);
                assert(!is_digit(b2[i - start]));
                assert(!all_digits(b2));
            }
            return None;
        }
        let d = (c as u32 - 48) as i64;
        proof {
            assert(body.take(i - start + 1).drop_last() =~= body.take(i - start));
            assert(body.take(i - start + 1).last() == c);
        }
        if !big {
            let nv = v * 10 + d;
            if nv > 2147483648 {
                big = true;
            } else {
                v = nv;
            }
        }
        proof {
            if big {
                let p = body.take(i - start);
                let q = body.take(i - start + 1);
                assert forall|j: int| 0 <= j < p.len() implies #[trigger] is_digit(p[j]) by {
                    assert(p[j] == s@[start + j]);
                }
                lemma_digits_nonneg(p);
            }
        }
        i += 1;
    }
    proof {
        assert(body.take(n - start) =~= body);
        assert forall|j: int| 0 <= j < body.len() implies #[trigger] is_digit(body[j]) by {
            assert(body[j] == s@[start + j]);
        }
        assert(neg == (t.len() > 0 && t[0] == '-'));
    }
    if big {
        return None;
    }
    if neg {
        Some((-v) as i32)
    } else if v <= 2147483647 {
        Some(v as i32)
    } else {
        None
    }
}

/// `s` without the `%` signs at its end.
pub open spec fn trim_percent(s: Seq<char>) -> Seq<char>
    decreases s.len(),
{
    if s.len() > 0 && s.last() == '%' {
        trim_percent(s.drop_last())
    } else {
        s
    }
}

/// `trunc(250 * ln(p / (100 - p)))` for p in 1..=99: the evaluation of a win
/// percentage.
pub const PERCENT_VALUES: [i16; 99] = [
    -1148, -972, -869, -794, -736, -687, -646, -610, -578, -549, -522, -498, -475, -453, -433, -414, -396, -379, -362,
    -346, -331, -316, -302, -288, -274, -261, -248, -236, -223, -211, -200, -188, -177, -165, -154, -143, -133, -122, -111,
    -101, -90, -80, -70, -60, -50, -40, -30, -20, -10, 0, 10, 20, 30, 40, 50, 60, 70, 80, 90, 101, 111, 122, 133, 143, 154,
    165, 177, 188, 200, 211, 223, 236, 248, 261, 274, 288, 302, 316, 331, 346, 362, 379, 396, 414, 433, 453, 475, 498,
    522, 549, 578, 610, 646, 687, 736, 794, 869, 972, 1148,
];

/// Whether a node text is a label or an evaluation: "W", "L", "W<n>",
/// "L<n>" or "<n>" followed by `%` signs (`<n>` an `i32`).
pub open spec fn is_label_value(t: Seq<char>) -> bool {
    ||| t == seq!['W']
    ||| t == seq!['L']
    ||| (t.len() > 0 && t[0] == 'W' && i32_text(t.drop_first()) is Some)
    ||| (t.len() > 0 && t[0] == 'L' && i32_text(t.drop_first()) is Some)
    ||| i32_text(trim_percent(t)) is Some
}

/// The mate evaluation for a win in `steps` more moves: `30000 - steps + 1`
/// in 16-bit arithmetic.
pub open spec fn mate_value(steps: i32) -> i16 {
    30000i16.wrapping_sub(steps as i16).wrapping_add(1)
}

/// The label and evaluation a node text stands for at `depth`: "W" / "L"
/// are the labels; "W<n>" / "L<n>" a mate in `n` moves from the start (an
/// evaluation only while moves remain); "<p>%" for p in 1..99 an evaluation;
/// anything else nothing.
pub open spec fn label_value(t: Seq<char>, depth: int) -> (u8, i16) {
    if t == seq!['W'] {
        (87u8, 0i16)
    } else if t == seq!['L'] {
        (76u8, 0i16)
    } else if t.len() > 0 && t[0] == 'W' && i32_text(t.drop_first()) is Some {
        let steps = (i32_text(t.drop_first())->0 as i32).wrapping_sub(depth as i32);
        if steps > 0 {
            (87u8, 0i16.wrapping_sub(mate_value(steps)))
        } else {
            (87u8, 0i16)
        }
    } else if t.len() > 0 && t[0] == 'L' && i32_text(t.drop_first()) is Some {
        let steps = (i32_text(t.drop_first())->0 as i32).wrapping_sub(depth as i32);
        if steps > 0 {
            (76u8, mate_value(steps))
        } else {
            (76u8, 0i16)
        }
    } else if i32_text(trim_percent(t)) is Some && 0 < i32_text(trim_percent(t))->0 < 100 {
        (0u8, PERCENT_VALUES[i32_text(trim_percent(t))->0 - 1])
    } else {
        (0u8, 0i16)
    }
}

/// The length of `s` once its trailing `%` signs are gone.
fn trimmed_percent_len(s: &Vec<char>) -> (n: usize)
    ensures
        n <= s@.len(),
        s@.take(n as int) == trim_percent(s@),
{
    let mut n = s.len();
    proof {
        assert(s@.take(n as int) =~= s@);
    }
    while n > 0 && s[n - 1] == '%'
        invariant
            n <= s@.len(),
            trim_percent(s@.take(n as int)) == trim_percent(s@),
        decreases n,
    {
        proof {
            assert(s@.take(n as int).drop_last() =~= s@.take(n - 1));
        }
        n -= 1;
    }
    n
}

/// Whether the text is a label or an evaluation.
pub fn is_label_value_text(text: &str) -> (r: bool)
    ensures
        r == is_label_value(text@),
{
    let s = crate::text::chars_of(text);
    let n = s.len();
    if n == 1 && (s[0] == 'W' || s[0] == 'L') {
        proof {
            assert(s@ =~= seq![s@[0]]);
        }
        return true;
    }
    proof {
        if s@ == seq!['W'] || s@ == seq!['L'] {
            assert(s@.len() == 1);
        }
    }
    if n > 0 && (s[0] == 'W' || s[0] == 'L') {
        let v = parse_i32(&s, 1);
        proof {
            assert(s@.skip(1) =~= s@.drop_first());
        }
        if v.is_some() {
            return true;
        }
    }
    let m = trimmed_percent_len(&s);
    let mut pre: Vec<char> = Vec::new();
    let mut i: usize = 0;
    while i < m
        invariant
            i <= m <= s@.len(),
            pre@ == s@.take(i as int),
        decreases m - i,
    {
        pre.push(s[i]);
        proof {
            assert(s@.take(i + 1) =~= s@.take(i as int).push(s@[i as int]));
        }
        i += 1;
    }
    let v = parse_i32(&pre, 0);
    proof {
        assert(pre@.skip(0) =~= pre@);
    }
    v.is_some()
}

/// The label and evaluation of a node text at `depth`.
pub fn text_to_label_value(text: &str, depth: usize) -> (r: (u8, i16))
    requires
        depth <= 255,
    ensures
        r == label_value(text@, depth as int),
{
    let s = crate::text::chars_of(text);
    let n = s.len();
    if n == 1 && s[0] == 'W' {
        proof {
            assert(s@ =~= seq!['W']);
        }
        return (87, 0);
    }
    if n == 1 && s[0] == 'L' {
        proof {
            assert(s@ =~= seq!['L']);
            assert(s@ != seq!['W']);
        }
        return (76, 0);
    }
    proof {
        if s@ == seq!['W'] || s@ == seq!['L'] {
            assert(s@.len() == 1);
        }
        assert(s@.skip(1) =~= s@.drop_first()) by {
            if s@.len() == 0 {
            }
        }
    }
    if n > 0 && s[0] == 'W' {
        if let Some(v) = parse_i32(&s, 1) {
            let steps = v.wrapping_sub(depth as i32);
            if steps > 0 {
                let m = 30000i16.wrapping_sub(steps as i16).wrapping_add(1);
                return (87, 0i16.wrapping_sub(m));
            }
            return (87, 0);
        }
    }
    if n > 0 && s[0] == 'L' {
        if let Some(v) = parse_i32(&s, 1) {
            let steps = v.wrapping_sub(depth as i32);
            if steps > 0 {
                return (76, 30000i16.wrapping_sub(steps as i16).wrapping_add(1));
            }
            return (76, 0);
        }
    }
    let m = trimmed_percent_len(&s);
    let mut pre: Vec<char> = Vec::new();
    let mut i: usize = 0;
    while i < m
        invariant
            i <= m <= s@.len(),
            pre@ == s@.take(i as int),
        decreases m - i,
    {
        pre.push(s[i]);
        proof {
            assert(s@.take(i + 1) =~= s@.take(i as int).push(s@[i as int]));
        }
        i += 1;
    }
    let v = parse_i32(&pre, 0);
    proof {
        assert(pre@.skip(0) =~= pre@);
    }
    match v {
        Some(pct) => {
            if pct > 0 && pct < 100 {
                (0, PERCENT_VALUES[(pct - 1) as usize])
            } else {
                (0, 0)
            }
        },
        None => (0, 0),
    }
}

} // verus!
