use vstd::prelude::*;

verus! {

broadcast use vstd::string::group_string_axioms;

// ---------------------------------------------------------------------------
// Decimal rendering
// ---------------------------------------------------------------------------

pub open spec fn dec_digit(d: int) -> char {
    if d == 0 {
        '0'
    } else if d == 1 {
        '1'
    } else if d == 2 {
        '2'
    } else if d == 3 {
        '3'
    } else if d == 4 {
        '4'
    } else if d == 5 {
        '5'
    } else if d == 6 {
        '6'
    } else if d == 7 {
        '7'
    } else if d == 8 {
        '8'
    } else {
        '9'
    }
}

/// The decimal digits of a non-negative integer, most significant first.
pub open spec fn dec_str(n: int) -> Seq<char>
    decreases n,
{
    if n <= 9 {
        seq![dec_digit(n)]
    } else {
        dec_str(n / 10).push(dec_digit(n % 10))
    }
}

/// The decimal form of an integer, with a leading minus sign when negative.
pub open spec fn int_str(n: int) -> Seq<char> {
    if n < 0 {
        seq!['-'] + dec_str(-n)
    } else {
        dec_str(n)
    }
}

fn digit_str(d: u64) -> (r: &'static str)
    requires
        d <= 9,
    ensures
        r@ == seq![dec_digit(d as int)],
{
    if d == 0 {
        proof {
            reveal_strlit("0");
            assert(("0")@ =~= seq![dec_digit(0)]);
        }
        "0"
    } else if d == 1 {
        proof {
            reveal_strlit("1");
            assert(("1")@ =~= seq![dec_digit(1)]);
        }
        "1"
    } else if d == 2 {
        proof {
            reveal_strlit("2");
            assert(("2")@ =~= seq![dec_digit(2)]);
        }
        "2"
    } else if d == 3 {
        proof {
            reveal_strlit("3");
            assert(("3")@ =~= seq![dec_digit(3)]);
        }
        "3"
    } else if d == 4 {
        proof {
            reveal_strlit("4");
            assert(("4")@ =~= seq![dec_digit(4)]);
        }
        "4"
    } else if d == 5 {
        proof {
            reveal_strlit("5");
            assert(("5")@ =~= seq![dec_digit(5)]);
        }
        "5"
    } else if d == 6 {
        proof {
            reveal_strlit("6");
            assert(("6")@ =~= seq![dec_digit(6)]);
        }
        "6"
    } else if d == 7 {
        proof {
            reveal_strlit("7");
            assert(("7")@ =~= seq![dec_digit(7)]);
        }
        "7"
    } else if d == 8 {
        proof {
            reveal_strlit("8");
            assert(("8")@ =~= seq![dec_digit(8)]);
        }
        "8"
    } else {
        proof {
            reveal_strlit("9");
            assert(("9")@ =~= seq![dec_digit(9)]);
        }
        "9"
    }
}

pub fn u64_string(n: u64) -> (r: String)
    ensures
        r@ == dec_str(n as int),
    decreases n,
{
    if n <= 9 {
        String::from_str(digit_str(n))
    } else {
        let mut s = u64_string(n / 10);
        s.append(digit_str(n % 10));
        proof {
            assert(dec_str(n as int) =~= dec_str(n as int / 10) + seq![dec_digit(n as int % 10)]);
        }
        s
    }
}

pub fn usize_string(n: usize) -> (r: String)
    ensures
        r@ == dec_str(n as int),
{
    u64_string(n as u64)
}

pub fn i64_string(n: i64) -> (r: String)
    ensures
        r@ == int_str(n as int),
{
    if n >= 0 {
        u64_string(n as u64)
    } else {
        let m: u64 = (-(n as i128)) as u64;
        let mut s = String::from_str("-");
        proof {
            reveal_strlit("-");
            assert(("-")@ =~= seq!['-']);
        }
        let rest = u64_string(m);
        s.append(rest.as_str());
        s
    }
}

pub fn i32_string(n: i32) -> (r: String)
    ensures
        r@ == int_str(n as int),
{
    i64_string(n as i64)
}

// ---------------------------------------------------------------------------
// Trusted character classification and case mapping
// ---------------------------------------------------------------------------

pub uninterp spec fn is_alnum_of(c: char) -> bool;

/// Relies on char::is_alphanumeric: a Unicode character-class test that
/// depends on the character alone.
#[verifier::external_body]
pub fn char_is_alnum(c: char) -> (r: bool)
    ensures
        r == is_alnum_of(c),
{
    c.is_alphanumeric()
}

pub uninterp spec fn is_ws_of(c: char) -> bool;

/// Relies on char::is_whitespace: a Unicode character-class test that
/// depends on the character alone.
#[verifier::external_body]
pub fn char_is_ws(c: char) -> (r: bool)
    ensures
        r == is_ws_of(c),
{
    c.is_whitespace()
}

pub uninterp spec fn lower_char_of(c: char) -> Seq<char>;

/// Relies on char::to_lowercase: the Unicode lowercase mapping of a single
/// character, which depends on the character alone.
#[verifier::external_body]
pub fn char_lower(c: char) -> (r: Vec<char>)
    ensures
        r@ == lower_char_of(c),
{
    c.to_lowercase().collect()
}

/// Relies on String::push: appends a single character at the end.
#[verifier::external_body]
pub fn push_char(s: &mut String, c: char)
    ensures
        final(s)@ == old(s)@.push(c),
{
    s.push(c)
}

// ---------------------------------------------------------------------------
// Verified string utilities
// ---------------------------------------------------------------------------

pub fn str_eq(a: &str, b: &str) -> (r: bool)
    ensures
        r == (a@ == b@),
{
    let na = a.unicode_len();
    let nb = b.unicode_len();
    if na != nb {
        return false;
    }
    let mut i: usize = 0;
    while i < na
        invariant
            na == a@.len(),
            na == b@.len(),
            i <= na,
            forall|j: int| 0 <= j < i ==> a@[j] == b@[j],
        decreases na - i,
    {
        if a.get_char(i) != b.get_char(i) {
            return false;
        }
        i += 1;
    }
    proof {
        assert(a@ =~= b@);
    }
    true
}

pub fn str_starts_with(s: &str, p: &str) -> (r: bool)
    ensures
        r == (p@.len() <= s@.len() && s@.subrange(0, p@.len() as int) == p@),
{
    let np = p.unicode_len();
    let ns = s.unicode_len();
    if np > ns {
        return false;
    }
    let mut i: usize = 0;
    while i < np
        invariant
            np == p@.len(),
            ns == s@.len(),
            np <= ns,
            i <= np,
            forall|j: int| 0 <= j < i ==> s@[j] == p@[j],
        decreases np - i,
    {
        if s.get_char(i) != p.get_char(i) {
            proof {
                assert(s@.subrange(0, p@.len() as int)[i as int] != p@[i as int]);
            }
            return false;
        }
        i += 1;
    }
    proof {
        assert(s@.subrange(0, p@.len() as int) =~= p@);
    }
    true
}

pub fn str_find_char(s: &str, c: char) -> (r: Option<usize>)
    ensures
        match r {
            Some(i) => i < s@.len() && s@[i as int] == c && forall|j: int|
                0 <= j < i ==> s@[j] != c,
            None => forall|j: int| 0 <= j < s@.len() ==> s@[j] != c,
        },
{
    let n = s.unicode_len();
    let mut i: usize = 0;
    while i < n
        invariant
            n == s@.len(),
            i <= n,
            forall|j: int| 0 <= j < i ==> s@[j] != c,
        decreases n - i,
    {
        if s.get_char(i) == c {
            return Some(i);
        }
        i += 1;
    }
    None
}

/// Index of the first character that is not whitespace, scanning from `i`.
pub open spec fn first_non_ws(s: Seq<char>, i: int) -> int
    decreases s.len() - i,
{
    if i < 0 || i >= s.len() {
        s.len() as int
    } else if is_ws_of(s[i]) {
        first_non_ws(s, i + 1)
    } else {
        i
    }
}

/// One past the last character that is not whitespace, scanning down from `i`.
pub open spec fn last_non_ws(s: Seq<char>, i: int) -> int
    decreases i,
{
    if i <= 0 || i > s.len() {
        0
    } else if is_ws_of(s[i - 1]) {
        last_non_ws(s, i - 1)
    } else {
        i
    }
}

/// The string with leading and trailing whitespace removed.
pub open spec fn trimmed(s: Seq<char>) -> Seq<char> {
    if first_non_ws(s, 0) == s.len() {
        Seq::empty()
    } else {
        s.subrange(first_non_ws(s, 0), last_non_ws(s, s.len() as int))
    }
}

proof fn lemma_first_non_ws_range(s: Seq<char>, i: int)
    requires
        0 <= i <= s.len(),
    ensures
        i <= first_non_ws(s, i) <= s.len(),
        first_non_ws(s, i) < s.len() ==> !is_ws_of(s[first_non_ws(s, i)]),
    decreases s.len() - i,
{
    if i < s.len() && is_ws_of(s[i]) {
        lemma_first_non_ws_range(s, i + 1);
    }
}

proof fn lemma_last_non_ws_range(s: Seq<char>, i: int)
    requires
        0 <= i <= s.len(),
    ensures
        0 <= last_non_ws(s, i) <= i,
        last_non_ws(s, i) > 0 ==> !is_ws_of(s[last_non_ws(s, i) - 1]),
    decreases i,
{
    if i > 0 && is_ws_of(s[i - 1]) {
        lemma_last_non_ws_range(s, i - 1);
    }
}

proof fn lemma_first_le_last(s: Seq<char>, a: int)
    requires
        0 <= a,
        a == first_non_ws(s, 0),
        a < s.len(),
    ensures
        a < last_non_ws(s, s.len() as int),
    decreases s.len(),
{
    lemma_first_non_ws_range(s, 0);
    lemma_last_non_ws_gt(s, s.len() as int, a);
}

proof fn lemma_last_non_ws_gt(s: Seq<char>, i: int, a: int)
    requires
        0 <= a < i <= s.len(),
        !is_ws_of(s[a]),
    ensures
        last_non_ws(s, i) > a,
    decreases i,
{
    if is_ws_of(s[i - 1]) {
        lemma_last_non_ws_gt(s, i - 1, a);
    }
}

pub fn str_trim(s: &str) -> (r: String)
    ensures
        r@ == trimmed(s@),
{
    let n = s.unicode_len();
    let mut a: usize = 0;
    while a < n && char_is_ws(s.get_char(a))
        invariant
            n == s@.len(),
            0 <= a <= n,
            first_non_ws(s@, 0) == first_non_ws(s@, a as int),
        decreases n - a,
    {
        a += 1;
    }
    if a == n {
        proof {
            lemma_first_non_ws_range(s@, a as int);
        }
        return String::new();
    }
    proof {
        lemma_first_non_ws_range(s@, 0);
    }
    let mut b: usize = n;
    while b > a && char_is_ws(s.get_char(b - 1))
        invariant
            n == s@.len(),
            a < n,
            a < b <= n,
            first_non_ws(s@, 0) == a as int,
            !is_ws_of(s@[a as int]),
            last_non_ws(s@, n as int) == last_non_ws(s@, b as int),
        decreases b,
    {
        proof {
            assert(b - 1 > a) by {
                assert(is_ws_of(s@[b - 1]));
                assert(!is_ws_of(s@[a as int]));
            }
        }
        b -= 1;
    }
    proof {
        assert(!is_ws_of(s@[b - 1]));
        assert(last_non_ws(s@, b as int) == b as int);
    }
    let part = s.substring_char(a, b);
    String::from_str(part)
}

/// Index of the first space at or after `i`, or the length when there is none.
pub open spec fn first_space(s: Seq<char>, i: int) -> int
    decreases s.len() - i,
{
    if i < 0 || i >= s.len() {
        s.len() as int
    } else if s[i] == ' ' {
        i
    } else {
        first_space(s, i + 1)
    }
}

/// The pieces of `s` between single-space separators, in order; empty pieces
/// between consecutive spaces are kept.
pub open spec fn spec_split_spaces(s: Seq<char>) -> Seq<Seq<char>>
    decreases s.len(),
{
    let i = first_space(s, 0);
    if 0 <= i && i < s.len() {
        seq![s.subrange(0, i)] + spec_split_spaces(s.subrange(i + 1, s.len() as int))
    } else {
        seq![s]
    }
}

proof fn lemma_first_space_at(s: Seq<char>, k: int, i: int)
    requires
        0 <= k <= i < s.len(),
        s[i] == ' ',
        forall|j: int| k <= j < i ==> s[j] != ' ',
    ensures
        first_space(s, k) == i,
    decreases i - k,
{
    if k < i {
        lemma_first_space_at(s, k + 1, i);
    }
}

proof fn lemma_first_space_none(s: Seq<char>, k: int)
    requires
        0 <= k <= s.len(),
        forall|j: int| k <= j < s.len() ==> s[j] != ' ',
    ensures
        first_space(s, k) == s.len(),
    decreases s.len() - k,
{
    if k < s.len() {
        lemma_first_space_none(s, k + 1);
    }
}

pub fn split_spaces(s: &str) -> (r: Vec<String>)
    ensures
        r@.len() == spec_split_spaces(s@).len(),
        forall|i: int| 0 <= i < r@.len() ==> r@[i]@ == spec_split_spaces(s@)[i],
    decreases s@.len(),
{
    match str_find_char(s, ' ') {
        None => {
            proof {
                lemma_first_space_none(s@, 0);
            }
            let mut r: Vec<String> = Vec::new();
            r.push(String::from_str(s));
            r
        },
        Some(i) => {
            let n = s.unicode_len();
            let head = s.substring_char(0, i);
            let tail = s.substring_char(i + 1, n);
            let rest = split_spaces(tail);
            proof {
                lemma_first_space_at(s@, 0, i as int);
            }
            let mut r: Vec<String> = Vec::new();
            r.push(String::from_str(head));
            let mut k: usize = 0;
            while k < rest.len()
                invariant
                    0 <= k <= rest.len(),
                    rest@.len() == spec_split_spaces(tail@).len(),
                    forall|j: int| 0 <= j < rest@.len() ==> rest@[j]@ == spec_split_spaces(tail@)[j],
                    r@.len() == 1 + k,
                    r@[0]@ == s@.subrange(0, i as int),
                    forall|j: int| 1 <= j < r@.len() ==> r@[j]@ == spec_split_spaces(tail@)[j - 1],
                decreases rest.len() - k,
            {
                let piece = &rest[k];
                r.push(piece.clone());
                k += 1;
            }
            r
        },
    }
}

// ---------------------------------------------------------------------------
// Splitting long messages into sendable segments
// ---------------------------------------------------------------------------

/// Longest message the platform accepts, in characters.
pub const MAX_MESSAGE_LEN: usize = 4096;

/// The cut position found by scanning down from `to` for a newline; a segment
/// never ends right after its first character, so the scan stops at
/// `from + 1` and falls back to a hard split at `from + 4096`.
pub open spec fn newline_cut(s: Seq<char>, from: int, to: int) -> int
    decreases to - from,
{
    if to <= from + 1 {
        from + 4096
    } else if s[to - 1] == '\n' {
        to
    } else {
        newline_cut(s, from, to - 1)
    }
}

/// Where the segment starting at `from` ends: at the end of the text when it
/// fits, else after the last newline within the length budget, else after
/// exactly the budget.
pub open spec fn seg_cut(s: Seq<char>, from: int) -> int {
    if s.len() - from <= 4096 {
        s.len() as int
    } else {
        newline_cut(s, from, from + 4096)
    }
}

proof fn lemma_newline_cut_range(s: Seq<char>, from: int, to: int)
    requires
        from + 1 <= to <= from + 4096,
    ensures
        from + 2 <= newline_cut(s, from, to) <= from + 4096,
    decreases to - from,
{
    if to > from + 1 && s[to - 1] != '\n' {
        lemma_newline_cut_range(s, from, to - 1);
    }
}

pub proof fn lemma_seg_cut_range(s: Seq<char>, from: int)
    requires
        0 <= from < s.len(),
    ensures
        from < seg_cut(s, from) <= s.len(),
        seg_cut(s, from) - from <= 4096,
{
    if s.len() - from > 4096 {
        lemma_newline_cut_range(s, from, from + 4096);
    }
}

/// The successive segments of a message, each at most 4096 characters.
pub open spec fn spec_segments(s: Seq<char>, from: int) -> Seq<Seq<char>>
    decreases s.len() - from,
    when 0 <= from
    via spec_segments_dec
{
    if from >= s.len() {
        Seq::empty()
    } else {
        seq![s.subrange(from, seg_cut(s, from))] + spec_segments(s, seg_cut(s, from))
    }
}

#[via_fn]
proof fn spec_segments_dec(s: Seq<char>, from: int) {
    if 0 <= from < s.len() {
        lemma_seg_cut_range(s, from);
    }
}

pub fn message_segments(text: &str) -> (r: Vec<String>)
    ensures
        r@.len() == spec_segments(text@, 0).len(),
        forall|i: int| 0 <= i < r@.len() ==> r@[i]@ == spec_segments(text@, 0)[i],
{
    let n = text.unicode_len();
    let mut r: Vec<String> = Vec::new();
    let mut from: usize = 0;
    while from < n
        invariant
            n == text@.len(),
            0 <= from <= n,
            spec_segments(text@, 0).len() == r@.len() + spec_segments(text@, from as int).len(),
            forall|i: int|
                0 <= i < r@.len() ==> r@[i]@ == spec_segments(text@, 0)[i],
            forall|i: int|
                0 <= i < spec_segments(text@, from as int).len() ==> spec_segments(
                    text@,
                    from as int,
                )[i] == spec_segments(text@, 0)[r@.len() + i],
        decreases n - from,
    {
        let mut to: usize = if n - from <= MAX_MESSAGE_LEN {
            n
        } else {
            from + MAX_MESSAGE_LEN
        };
        if to != n {
            let ghost to0: int = to as int;
            loop
                invariant_except_break
                    n == text@.len(),
                    from + 1 <= to <= from + 4096,
                    from + 4096 < n,
                    newline_cut(text@, from as int, to0) == newline_cut(
                        text@,
                        from as int,
                        to as int,
                    ),
                    to0 == from + 4096,
                ensures
                    to as int == newline_cut(text@, from as int, to0),
                decreases to,
            {
                if to == from + 1 {
                    to = from + MAX_MESSAGE_LEN;
                    break ;
                }
                if text.get_char(to - 1) == '\n' {
                    break ;
                }
                to -= 1;
            }
            proof {
                assert(to as int == seg_cut(text@, from as int));
            }
        }
        proof {
            lemma_seg_cut_range(text@, from as int);
            assert(to as int == seg_cut(text@, from as int));
        }
        let ghost segs0 = spec_segments(text@, 0);
        let ghost cur = spec_segments(text@, from as int);
        let ghost nxt = spec_segments(text@, to as int);
        let ghost oldn = r@.len() as int;
        let piece = text.substring_char(from, to);
        r.push(String::from_str(piece));
        proof {
            assert(cur == seq![text@.subrange(from as int, to as int)] + nxt);
            assert(cur[0] == text@.subrange(from as int, to as int));
            assert(segs0[oldn] == cur[0]);
            assert forall|i: int| 0 <= i < nxt.len() implies nxt[i] == segs0[r@.len() + i] by {
                assert(cur[i + 1] == nxt[i]);
                assert(cur[i + 1] == segs0[oldn + (i + 1)]);
            }
        }
        from = to;
    }
    proof {
        assert(spec_segments(text@, from as int).len() == 0);
    }
    r
}

// ---------------------------------------------------------------------------
// Lowercasing built from the per-character mapping
// ---------------------------------------------------------------------------

/// The concatenation of the lowercase mappings of every character.
pub open spec fn lower_seq(s: Seq<char>) -> Seq<char>
    decreases s.len(),
{
    if s.len() == 0 {
        Seq::empty()
    } else {
        lower_char_of(s[0]) + lower_seq(s.drop_first())
    }
}

proof fn lemma_lower_seq_push(s: Seq<char>, c: char)
    ensures
        lower_seq(s.push(c)) == lower_seq(s) + lower_char_of(c),
    decreases s.len(),
{
    if s.len() == 0 {
        assert(s.push(c)[0] == c);
        assert(s.push(c).drop_first() =~= Seq::<char>::empty());
        assert(lower_seq(s.push(c)) == lower_char_of(c) + lower_seq(Seq::<char>::empty()));
        assert(lower_char_of(c) + Seq::<char>::empty() =~= lower_char_of(c));
        assert(lower_seq(s) + lower_char_of(c) =~= lower_char_of(c));
    } else {
        assert(s.push(c).drop_first() =~= s.drop_first().push(c));
        lemma_lower_seq_push(s.drop_first(), c);
        assert(lower_seq(s.push(c)) =~= lower_seq(s) + lower_char_of(c));
    }
}

pub fn lowercase(s: &str) -> (r: String)
    ensures
        r@ == lower_seq(s@),
{
    let n = s.unicode_len();
    let mut r = String::new();
    let mut i: usize = 0;
    while i < n
        invariant
            n == s@.len(),
            i <= n,
            r@ == lower_seq(s@.subrange(0, i as int)),
        decreases n - i,
    {
        let c = s.get_char(i);
        let low = char_lower(c);
        let mut k: usize = 0;
        while k < low.len()
            invariant
                low@ == lower_char_of(c),
                k <= low.len(),
                r@ == lower_seq(s@.subrange(0, i as int)) + low@.subrange(0, k as int),
            decreases low.len() - k,
        {
            push_char(&mut r, low[k]);
            proof {
                assert(low@.subrange(0, k as int).push(low@[k as int]) =~= low@.subrange(
                    0,
                    k + 1,
                ));
                assert((lower_seq(s@.subrange(0, i as int)) + low@.subrange(0, k as int)).push(
                    low@[k as int],
                ) =~= lower_seq(s@.subrange(0, i as int)) + low@.subrange(0, k + 1));
            }
            k += 1;
        }
        proof {
            assert(low@.subrange(0, low@.len() as int) =~= low@);
            assert(s@.subrange(0, i as int).push(s@[i as int]) =~= s@.subrange(0, i + 1));
            lemma_lower_seq_push(s@.subrange(0, i as int), s@[i as int]);
        }
        i += 1;
    }
    proof {
        assert(s@.subrange(0, n as int) =~= s@);
    }
    r
}


// ---------------------------------------------------------------------------
// Parsing decimal integers
// ---------------------------------------------------------------------------

pub open spec fn is_digit(c: char) -> bool {
    '0' <= c && c <= '9'
}

pub open spec fn digit_val(c: char) -> int {
    c as int - '0' as int
}

pub open spec fn all_digits(s: Seq<char>) -> bool {
    forall|i: int| 0 <= i < s.len() ==> is_digit(#[trigger] s[i])
}

/// The value of a string of decimal digits.
pub open spec fn digits_val(s: Seq<char>) -> int
    decreases s.len(),
{
    if s.len() == 0 {
        0
    } else {
        digits_val(s.drop_last()) * 10 + digit_val(s.last())
    }
}

/// The number a token denotes: an optional sign followed by at least one
/// digit, as the standard integer parser reads it.
pub open spec fn parsed_int(s: Seq<char>) -> Option<int> {
    if s.len() > 0 && (s[0] == '+' || s[0] == '-') {
        if s.len() > 1 && all_digits(s.drop_first()) {
            if s[0] == '-' {
                Some(-digits_val(s.drop_first()))
            } else {
                Some(digits_val(s.drop_first()))
            }
        } else {
            None
        }
    } else if s.len() > 0 && all_digits(s) {
        Some(digits_val(s))
    } else {
        None
    }
}

proof fn lemma_digits_val_nonneg(s: Seq<char>)
    requires
        all_digits(s),
    ensures
        digits_val(s) >= 0,
    decreases s.len(),
{
    if s.len() > 0 {
        assert forall|i: int| 0 <= i < s.drop_last().len() implies is_digit(
            #[trigger] s.drop_last()[i],
        ) by {
            assert(s.drop_last()[i] == s[i]);
        }
        lemma_digits_val_nonneg(s.drop_last());
    }
}

proof fn lemma_digits_val_monotone(s: Seq<char>, i: int)
    requires
        all_digits(s),
        0 <= i <= s.len(),
    ensures
        digits_val(s) >= digits_val(s.take(i)),
    decreases s.len() - i,
{
    if i < s.len() {
        lemma_digits_val_monotone(s, i + 1);
        assert(s.take(i + 1).drop_last() =~= s.take(i));
        assert forall|w: int| 0 <= w < s.take(i).len() implies is_digit(
            #[trigger] s.take(i)[w],
        ) by {
            assert(s.take(i)[w] == s[w]);
        }
        lemma_digits_val_nonneg(s.take(i));
        assert(digits_val(s.take(i + 1)) == digits_val(s.take(i)) * 10 + digit_val(s[i]));
        assert(digit_val(s[i]) >= 0);
        assert(digits_val(s.take(i)) * 10 >= digits_val(s.take(i)));
    } else {
        assert(s.take(i) =~= s);
    }
}

/// Reads a run of digits; bails out once the value cannot fit the result
/// range, which is exactly when the denoted value does not fit either.
fn parse_digits(s: &str, from: usize) -> (res: Option<i64>)
    requires
        from as int <= s@.len(),
    ensures
        match res {
            Some(v) => s@.skip(from as int).len() > 0 && all_digits(s@.skip(from as int)) && v
                as int == digits_val(s@.skip(from as int)) && v >= 0,
            None => s@.skip(from as int).len() == 0 || !all_digits(s@.skip(from as int))
                || digits_val(s@.skip(from as int)) > i64::MAX,
        },
{
    let n = s.unicode_len();
    if from == n {
        return None;
    }
    let ghost tail = s@.skip(from as int);
    let mut acc: i64 = 0;
    let mut i: usize = from;
    while i < n
        invariant
            n == s@.len(),
            from <= i <= n,
            tail == s@.skip(from as int),
            from < n,
            forall|w: int| 0 <= w < i - from ==> is_digit(#[trigger] tail[w]),
            acc as int == digits_val(tail.take(i - from)),
            acc >= 0,
        decreases n - i,
    {
        let c = s.get_char(i);
        if c < '0' || c > '9' {
            proof {
                assert(tail[i - from] == c);
                assert(!is_digit(c));
            }
            return None;
        }
        let d: i64 = (c as u32 - '0' as u32) as i64;
        proof {
            assert(tail[i - from] == c);
            assert(d as int == digit_val(c));
            assert(tail.take(i - from + 1).drop_last() =~= tail.take(i - from));
        }
        if acc > (i64::MAX - d) / 10 {
            proof {
                assert(digits_val(tail.take(i - from + 1)) == acc * 10 + d);
                assert(digits_val(tail.take(i - from + 1)) > i64::MAX);
                if all_digits(tail) {
                    lemma_digits_val_monotone(tail, i - from + 1);
                }
            }
            return None;
        }
        acc = acc * 10 + d;
        i += 1;
    }
    proof {
        assert(tail.take(n - from) =~= tail);
    }
    Some(acc)
}

/// The standard reading of a signed decimal token, limited to `i64`.
pub fn parse_i64(s: &str) -> (res: Option<i64>)
    ensures
        match res {
            Some(v) => parsed_int(s@) == Some(v as int),
            None => parsed_int(s@) is None || (match parsed_int(s@) {
                Some(v) => v > i64::MAX || v < -(i64::MAX as int),
                None => true,
            }),
        },
{
    let n = s.unicode_len();
    if n == 0 {
        return None;
    }
    let c0 = s.get_char(0);
    if c0 == '+' || c0 == '-' {
        match parse_digits(s, 1) {
            None => None,
            Some(v) => {
                proof {
                    assert(s@.skip(1) == s@.drop_first());
                }
                if c0 == '-' {
                    Some(-v)
                } else {
                    Some(v)
                }
            },
        }
    } else {
        proof {
            assert(s@.skip(0) =~= s@);
        }
        match parse_digits(s, 0) {
            None => None,
            Some(v) => Some(v),
        }
    }
}
} // verus!
