//! Characters, lines, decimal numbers and strings: the pieces that the text
//! formats are read and written with.

use vstd::prelude::*;
use vstd::string::StrSliceExecFns;
use vstd::utf8::{decode_utf8, encode_scalar, encode_utf8, has_width_1_encoding, valid_utf8};

verus! {

/// `String::push` appends one character.
pub assume_specification[ String::push ](s: &mut String, ch: char)
    ensures
        final(s)@ == old(s)@.push(ch),
;

/// `String::push_str` appends a string slice.
pub assume_specification[ String::push_str ](s: &mut String, string: &str)
    ensures
        final(s)@ == old(s)@ + string@,
;

// ---------------------------------------------------------------- whitespace

/// Unicode `White_Space`, the property behind `char::is_whitespace` and `str::trim`.
pub open spec fn is_ws(c: char) -> bool {
    ||| ('\u{9}' <= c && c <= '\u{d}')
    ||| c == ' '
    ||| c == '\u{85}'
    ||| c == '\u{a0}'
    ||| c == '\u{1680}'
    ||| ('\u{2000}' <= c && c <= '\u{200a}')
    ||| c == '\u{2028}'
    ||| c == '\u{2029}'
    ||| c == '\u{202f}'
    ||| c == '\u{205f}'
    ||| c == '\u{3000}'
}

/// `s` without its leading whitespace.
pub open spec fn trim_start(s: Seq<char>) -> Seq<char>
    decreases s.len(),
{
    if s.len() > 0 && is_ws(s[0]) {
        trim_start(s.drop_first())
    } else {
        s
    }
}

/// `s` without its trailing whitespace.
pub open spec fn trim_end(s: Seq<char>) -> Seq<char>
    decreases s.len(),
{
    if s.len() > 0 && is_ws(s.last()) {
        trim_end(s.drop_last())
    } else {
        s
    }
}

/// `s` without leading and trailing whitespace, as `str::trim` gives it.
pub open spec fn trim(s: Seq<char>) -> Seq<char> {
    trim_end(trim_start(s))
}


/// The characters of `s` in `lo..hi`, as a vector.
pub fn slice_chars(s: &Vec<char>, lo: usize, hi: usize) -> (r: Vec<char>)
    requires
        lo <= hi <= s@.len(),
    ensures
        r@ == s@.subrange(lo as int, hi as int),
{
    let mut r: Vec<char> = Vec::new();
    let mut i = lo;
    while i < hi
        invariant
            lo <= i <= hi <= s@.len(),
            r@ == s@.subrange(lo as int, i as int),
        decreases hi - i,
    {
        r.push(s[i]);
        proof {
            assert(s@.subrange(lo as int, i + 1) =~= s@.subrange(lo as int, i as int).push(s@[i as int]));
        }
        i = i + 1;
    }
    r
}

/// `char::is_whitespace`.
pub fn is_whitespace(c: char) -> (r: bool)
    ensures
        r == is_ws(c),
{
    ('\u{9}' <= c && c <= '\u{d}') || c == ' ' || c == '\u{85}' || c == '\u{a0}' || c == '\u{1680}'
        || ('\u{2000}' <= c && c <= '\u{200a}') || c == '\u{2028}' || c == '\u{2029}' || c
        == '\u{202f}' || c == '\u{205f}' || c == '\u{3000}'
}

proof fn lemma_trim_start_skip(s: Seq<char>, i: int)
    requires
        0 <= i <= s.len(),
        forall|k: int| 0 <= k < i ==> is_ws(#[trigger] s[k]),
    ensures
        trim_start(s) == trim_start(s.skip(i)),
    decreases i,
{
    if i > 0 {
        assert(s.skip(1).skip(i - 1) =~= s.skip(i));
        lemma_trim_start_skip(s.drop_first(), i - 1);
        assert(s.drop_first() =~= s.skip(1));
    } else {
        assert(s.skip(0) =~= s);
    }
}

proof fn lemma_trim_end_take(s: Seq<char>, j: int)
    requires
        0 <= j <= s.len(),
        forall|k: int| j <= k < s.len() ==> is_ws(#[trigger] s[k]),
    ensures
        trim_end(s) == trim_end(s.take(j)),
    decreases s.len() - j,
{
    if j < s.len() {
        assert(s.drop_last().take(j) =~= s.take(j));
        lemma_trim_end_take(s.drop_last(), j);
    } else {
        assert(s.take(j) =~= s);
    }
}

/// `str::trim` on a sequence of characters.
pub fn trim_chars(s: &Vec<char>) -> (r: Vec<char>)
    ensures
        r@ == trim(s@),
{
    let n = s.len();
    let mut a: usize = 0;
    while a < n && is_whitespace(s[a])
        invariant
            0 <= a <= n == s@.len(),
            forall|k: int| 0 <= k < a ==> is_ws(#[trigger] s@[k]),
        decreases n - a,
    {
        a = a + 1;
    }
    proof {
        lemma_trim_start_skip(s@, a as int);
        assert(trim_start(s@.skip(a as int)) == s@.skip(a as int));
    }
    let mut b: usize = n;
    while b > a && is_whitespace(s[b - 1])
        invariant
            a <= b <= n == s@.len(),
            forall|k: int| b <= k < n ==> is_ws(#[trigger] s@[k]),
        decreases b,
    {
        b = b - 1;
    }
    proof {
        let t = s@.skip(a as int);
        assert forall|k: int| (b - a) <= k < t.len() implies is_ws(#[trigger] t[k]) by {
            assert(t[k] == s@[k + a]);
        }
        lemma_trim_end_take(t, b - a);
        assert(t.take(b - a) =~= s@.subrange(a as int, b as int));
        let u = s@.subrange(a as int, b as int);
        if u.len() > 0 {
            assert(u.last() == s@[b - 1]);
        }
    }
    slice_chars(s, a, b)
}

/// A sequence whose first and last characters are not whitespace trims to itself.
pub proof fn lemma_trim_keeps(s: Seq<char>)
    requires
        s.len() > 0,
        !is_ws(s[0]),
        !is_ws(s.last()),
    ensures
        trim(s) == s,
{
    assert(trim_start(s) == s);
    assert(trim_end(s) == s);
}

/// A space before such a sequence goes away in `trim`.
pub proof fn lemma_trim_space_before(s: Seq<char>)
    requires
        s.len() > 0,
        !is_ws(s[0]),
        !is_ws(s.last()),
    ensures
        trim(seq![' '] + s) == s,
{
    let t = seq![' '] + s;
    assert(t.drop_first() =~= s);
    assert(trim_start(t) == trim_start(s));
    lemma_trim_keeps(s);
}

/// `c` occurs nowhere in `s`.
pub open spec fn lacks(s: Seq<char>, c: char) -> bool {
    forall|i: int| 0 <= i < s.len() ==> #[trigger] s[i] != c
}


// -------------------------------------------------------------------- digits

/// The character of a decimal digit.
pub open spec fn digit_char(d: int) -> char {
    (d + 48) as char
}

/// `c` is an ASCII decimal digit.
pub open spec fn is_digit(c: char) -> bool {
    '0' <= c && c <= '9'
}

/// The value of an ASCII decimal digit.
pub open spec fn digit_value(c: char) -> int {
    c as int - 48
}

/// All characters of `s` are ASCII decimal digits.
pub open spec fn all_digits(s: Seq<char>) -> bool {
    forall|i: int| 0 <= i < s.len() ==> is_digit(#[trigger] s[i])
}

/// The number that a string of decimal digits stands for.
pub open spec fn digits_value(s: Seq<char>) -> int
    decreases s.len(),
{
    if s.len() == 0 {
        0
    } else {
        digits_value(s.drop_last()) * 10 + digit_value(s.last())
    }
}

/// The decimal notation of `n`, with no leading zeros.
pub open spec fn dec(n: nat) -> Seq<char>
    decreases n,
{
    if n < 10 {
        seq![digit_char(n as int)]
    } else {
        dec(n / 10).push(digit_char((n % 10) as int))
    }
}

/// The decimal notation of a signed number, with '-' before a negative one.
pub open spec fn dec_signed(n: int) -> Seq<char> {
    if n < 0 {
        seq!['-'] + dec((-n) as nat)
    } else {
        dec(n as nat)
    }
}

/// The decimal notation of a number is digits that stand for that number.
pub proof fn lemma_dec_digits(n: nat)
    ensures
        all_digits(dec(n)),
        digits_value(dec(n)) == n,
        dec(n).len() > 0,
        dec(n)[0] != '+' && dec(n)[0] != '-',
    decreases n,
{
    assert(digit_value(digit_char((n % 10) as int)) == n % 10);
    if n < 10 {
        assert(dec(n).drop_last() =~= Seq::<char>::empty());
        assert(digits_value(dec(n).drop_last()) == 0);
    } else {
        lemma_dec_digits(n / 10);
        let d = dec(n);
        assert(d.drop_last() =~= dec(n / 10));
        assert(d.last() == digit_char((n % 10) as int));
        assert forall|i: int| 0 <= i < d.len() implies is_digit(#[trigger] d[i]) by {
            if i < d.len() - 1 {
                assert(d[i] == dec(n / 10)[i]);
            }
        }
    }
}

/// Appends the decimal notation of `n`.
pub fn push_decimal(s: &mut String, n: u64)
    ensures
        final(s)@ == old(s)@ + dec(n as nat),
    decreases n,
{
    if n >= 10 {
        push_decimal(s, n / 10);
    }
    let d: u8 = (n % 10) as u8;
    let c = (48u8 + d) as char;
    s.push(c);
    proof {
        assert(old(s)@ + dec(n as nat) =~= final(s)@);
    }
}

/// The decimal notation of `n`.
pub fn u64_to_string(n: u64) -> (r: String)
    ensures
        r@ == dec(n as nat),
{
    let mut s = String::new();
    push_decimal(&mut s, n);
    proof {
        assert(s@ =~= dec(n as nat));
    }
    s
}

/// The decimal notation of a signed `n`.
pub fn i64_to_string(n: i64) -> (r: String)
    ensures
        r@ == dec_signed(n as int),
{
    let mut s = String::new();
    if n < 0 {
        s.push('-');
        let m: u64 = (0i128 - (n as i128)) as u64;
        push_decimal(&mut s, m);
    } else {
        push_decimal(&mut s, n as u64);
    }
    proof {
        assert(s@ =~= dec_signed(n as int));
    }
    s
}

// ------------------------------------------------------------------- parsing

/// What `u64::from_str` gives: an optional '+', then one or more decimal
/// digits whose value fits in 64 bits.
pub open spec fn parse_u64_spec(s: Seq<char>) -> Option<u64> {
    let body = if s.len() > 0 && s[0] == '+' { s.drop_first() } else { s };
    if body.len() > 0 && all_digits(body) && digits_value(body) <= u64::MAX {
        Some(digits_value(body) as u64)
    } else {
        None
    }
}

/// What `i64::from_str` gives: an optional sign, then one or more decimal
/// digits whose signed value fits in 64 bits.
pub open spec fn parse_i64_spec(s: Seq<char>) -> Option<i64> {
    let neg = s.len() > 0 && s[0] == '-';
    let body = if s.len() > 0 && (s[0] == '+' || s[0] == '-') { s.drop_first() } else { s };
    let v = if neg { -digits_value(body) } else { digits_value(body) };
    if body.len() > 0 && all_digits(body) && i64::MIN <= v <= i64::MAX {
        Some(v as i64)
    } else {
        None
    }
}

proof fn lemma_digits_value_prefix(s: Seq<char>, i: int)
    requires
        0 <= i < s.len(),
        all_digits(s),
    ensures
        digits_value(s.take(i + 1)) == digits_value(s.take(i)) * 10 + digit_value(s[i]),
        digits_value(s.take(i + 1)) >= digits_value(s.take(i)),
        0 <= digit_value(s[i]) <= 9,
{
    assert(s.take(i + 1).drop_last() =~= s.take(i));
    lemma_digits_value_nonneg(s.take(i));
}

proof fn lemma_digits_value_nonneg(s: Seq<char>)
    requires
        all_digits(s),
    ensures
        digits_value(s) >= 0,
    decreases s.len(),
{
    if s.len() > 0 {
        assert(all_digits(s.drop_last())) by {
            assert forall|i: int| 0 <= i < s.drop_last().len() implies is_digit(#[trigger] s.drop_last()[i]) by {
                assert(s.drop_last()[i] == s[i]);
            }
        }
        lemma_digits_value_nonneg(s.drop_last());
    }
}

proof fn lemma_digits_value_monotone(s: Seq<char>, i: int, j: int)
    requires
        0 <= i <= j <= s.len(),
        all_digits(s),
    ensures
        digits_value(s.take(j)) >= digits_value(s.take(i)),
    decreases j - i,
{
    if i < j {
        lemma_digits_value_monotone(s, i, j - 1);
        lemma_digits_value_prefix(s, j - 1);
    }
}

/// The value of the decimal digits `s[lo..]`, where it is at most `limit`.
fn digits_up_to(s: &Vec<char>, lo: usize, limit: u64) -> (r: Option<u64>)
    requires
        lo <= s@.len(),
        limit >= 9,
    ensures
        ({
            let body = s@.skip(lo as int);
            r == (if body.len() > 0 && all_digits(body) && digits_value(body) <= limit {
                Some(digits_value(body) as u64)
            } else {
                None
            })
        }),
        r matches Some(v) ==> v as int == digits_value(s@.skip(lo as int)),
{
    let ghost body = s@.skip(lo as int);
    let n = s.len();
    if lo == n {
        return None;
    }
    let mut acc: u64 = 0;
    let mut i = lo;
    while i < n
        invariant
            lo <= i <= n == s@.len(),
            body == s@.skip(lo as int),
            forall|k: int| 0 <= k < i - lo ==> is_digit(#[trigger] body[k]),
            acc == digits_value(body.take(i - lo)),
            acc <= limit,
            limit >= 9,
        decreases n - i,
    {
        let c = s[i];
        proof {
            assert(body[i - lo] == c);
        }
        if !('0' <= c && c <= '9') {
            return None;
        }
        assert(48 <= (c as u32) <= 57);
        let d: u64 = ((c as u32) - 48) as u64;
        proof {
            assert(body.take(i - lo + 1).drop_last() =~= body.take(i - lo));
        }
        if acc > (limit - d) / 10 {
            proof {
                assert(digits_value(body.take(i - lo + 1)) > limit) by (nonlinear_arith)
                    requires
                        digits_value(body.take(i - lo + 1)) == acc * 10 + d,
                        acc > (limit - d) / 10,
                        d <= 9,
                        d <= limit || true,
                ;
                if all_digits(body) {
                    lemma_digits_value_monotone(body, i - lo + 1, body.len() as int);
                    assert(body.take(body.len() as int) =~= body);
                }
            }
            return None;
        }
        acc = acc * 10 + d;
        i = i + 1;
    }
    proof {
        assert(body.take(n - lo) =~= body);
    }
    Some(acc)
}

/// `u64::from_str` on a sequence of characters.
pub fn parse_u64_chars(s: &Vec<char>) -> (r: Option<u64>)
    ensures
        r == parse_u64_spec(s@),
{
    if s.len() > 0 && s[0] == '+' {
        proof {
            assert(s@.skip(1) =~= s@.drop_first());
        }
        digits_up_to(s, 1, u64::MAX)
    } else {
        proof {
            assert(s@.skip(0) =~= s@);
        }
        digits_up_to(s, 0, u64::MAX)
    }
}

/// `i64::from_str` on a sequence of characters.
pub fn parse_i64_chars(s: &Vec<char>) -> (r: Option<i64>)
    ensures
        r == parse_i64_spec(s@),
{
    if s.len() > 0 && s[0] == '-' {
        proof {
            assert(s@.skip(1) =~= s@.drop_first());
        }
        proof {
            let body = s@.skip(1);
            if body.len() > 0 && all_digits(body) {
                lemma_digits_value_nonneg(body);
            }
        }
        let r = match digits_up_to(s, 1, 9223372036854775808u64) {
            Some(v) => {
                let w: i128 = 0i128 - (v as i128);
                assert(i64::MIN <= w <= 0);
                Some(w as i64)
            },
            None => None,
        };
        r
    } else if s.len() > 0 && s[0] == '+' {
        proof {
            assert(s@.skip(1) =~= s@.drop_first());
        }
        match digits_up_to(s, 1, 9223372036854775807u64) {
            Some(v) => Some(v as i64),
            None => None,
        }
    } else {
        proof {
            assert(s@.skip(0) =~= s@);
        }
        match digits_up_to(s, 0, 9223372036854775807u64) {
            Some(v) => Some(v as i64),
            None => None,
        }
    }
}

/// Reading back the decimal notation of a number gives the number.
pub proof fn lemma_parse_dec_u64(n: u64)
    ensures
        parse_u64_spec(dec(n as nat)) == Some(n),
{
    lemma_dec_digits(n as nat);
}

/// Reading back the signed decimal notation of a number gives the number.
pub proof fn lemma_parse_dec_i64(n: i64)
    ensures
        parse_i64_spec(dec_signed(n as int)) == Some(n),
{
    if n < 0 {
        lemma_dec_digits((-n) as nat);
        assert((seq!['-'] + dec((-n) as nat)).drop_first() =~= dec((-n) as nat));
    } else {
        lemma_dec_digits(n as nat);
    }
}

// --------------------------------------------------------------- characters

/// The characters of a string slice.
pub fn chars_of(s: &str) -> (r: Vec<char>)
    ensures
        r@ == s@,
{
    let n = s.unicode_len();
    let mut r: Vec<char> = Vec::new();
    for i in 0..n
        invariant
            n == s@.len(),
            r@ == s@.take(i as int),
    {
        r.push(s.get_char(i));
        proof {
            assert(s@.take(i + 1) =~= s@.take(i as int).push(s@[i as int]));
        }
    }
    proof {
        assert(s@.take(n as int) =~= s@);
    }
    r
}

/// A string made of the characters `s[lo..hi]`.
pub fn string_of(s: &Vec<char>, lo: usize, hi: usize) -> (r: String)
    requires
        lo <= hi <= s@.len(),
    ensures
        r@ == s@.subrange(lo as int, hi as int),
{
    let mut r = String::new();
    let mut i = lo;
    while i < hi
        invariant
            lo <= i <= hi <= s@.len(),
            r@ == s@.subrange(lo as int, i as int),
        decreases hi - i,
    {
        r.push(s[i]);
        proof {
            assert(s@.subrange(lo as int, i + 1) =~= s@.subrange(lo as int, i as int).push(s@[i as int]));
        }
        i = i + 1;
    }
    r
}

/// `s` equals the string slice `t`.
pub fn chars_eq_str(s: &Vec<char>, t: &str) -> (r: bool)
    ensures
        r == (s@ == t@),
{
    let n = s.len();
    if n != t.unicode_len() {
        return false;
    }
    for i in 0..n
        invariant
            n == s@.len(),
            n == t@.len(),
            forall|k: int| 0 <= k < i ==> s@[k] == t@[k],
    {
        if s[i] != t.get_char(i) {
            return false;
        }
    }
    proof {
        assert(s@ =~= t@);
    }
    true
}

// -------------------------------------------------------------- searching

/// The index of the first `c` in `s` at or after `from`; `s.len()` where there is none.
pub open spec fn next_char(s: Seq<char>, from: int, c: char) -> int
    decreases s.len() - from,
{
    if from < 0 || from >= s.len() {
        s.len() as int
    } else if s[from] == c {
        from
    } else {
        next_char(s, from + 1, c)
    }
}

/// The index of the first `c` in `s` at or after `from`; `s.len()` where there is none.
pub fn find_char(s: &Vec<char>, from: usize, c: char) -> (r: usize)
    requires
        from <= s@.len(),
    ensures
        r == next_char(s@, from as int, c),
        from <= r <= s@.len(),
        r < s@.len() ==> s@[r as int] == c,
        forall|k: int| from <= k < r ==> s@[k] != c,
{
    let n = s.len();
    let mut i = from;
    while i < n
        invariant
            from <= i <= n == s@.len(),
            next_char(s@, from as int, c) == next_char(s@, i as int, c),
            forall|k: int| from <= k < i ==> s@[k] != c,
        decreases n - i,
    {
        if s[i] == c {
            return i;
        }
        i = i + 1;
    }
    i
}

// ------------------------------------------------------------------- lines

/// A line without the '\n' and '\r' at its end, as the readers keep it.
pub open spec fn strip_line_end(t: Seq<char>) -> Seq<char>
    decreases t.len(),
{
    if t.len() > 0 && (t.last() == '\n' || t.last() == '\r') {
        strip_line_end(t.drop_last())
    } else {
        t
    }
}

/// The line that starts at `pos`, without its line ending.
pub open spec fn line_at(s: Seq<char>, pos: int) -> Seq<char> {
    strip_line_end(s.subrange(pos, next_char(s, pos, '\n')))
}

/// Where the line after the one at `pos` starts.
pub open spec fn after_line(s: Seq<char>, pos: int) -> int {
    let e = next_char(s, pos, '\n');
    if e < s.len() {
        e + 1
    } else {
        s.len() as int
    }
}

/// The search for `c` from `from` stops at `k` when no `c` lies in between
/// and `c` (or the end) is at `k`.
pub proof fn lemma_next_char_at(s: Seq<char>, from: int, k: int, c: char)
    requires
        0 <= from <= k <= s.len(),
        forall|i: int| from <= i < k ==> s[i] != c,
        k < s.len() ==> s[k] == c,
    ensures
        next_char(s, from, c) == k,
    decreases k - from,
{
    if from < k {
        lemma_next_char_at(s, from + 1, k, c);
    }
}

/// The search for `c` from `from >= 0` ends inside `s` or at its end.
pub proof fn lemma_next_char_bounds(s: Seq<char>, from: int, c: char)
    requires
        0 <= from,
    ensures
        0 <= next_char(s, from, c) <= s.len(),
        from <= s.len() ==> from <= next_char(s, from, c),
        next_char(s, from, c) < s.len() ==> s[next_char(s, from, c)] == c,
        forall|i: int| from <= i < next_char(s, from, c) ==> s[i] != c,
    decreases s.len() - from,
{
    if from < s.len() && s[from] != c {
        lemma_next_char_bounds(s, from + 1, c);
    }
}


/// The line at `pos` is `body` where `body` and a '\n' stand there, `body`
/// holding no '\n' and not ending in '\r'.
pub proof fn lemma_line_at(s: Seq<char>, pos: int, body: Seq<char>)
    requires
        0 <= pos,
        pos + body.len() < s.len(),
        s.subrange(pos, pos + body.len()) == body,
        s[pos + body.len()] == '\n',
        forall|i: int| 0 <= i < body.len() ==> body[i] != '\n',
        body.len() > 0 ==> body.last() != '\r',
    ensures
        line_at(s, pos) == body,
        after_line(s, pos) == pos + body.len() + 1,
{
    let k = pos + body.len();
    assert forall|i: int| pos <= i < k implies s[i] != '\n' by {
        assert(s[i] == s.subrange(pos, k)[i - pos]);
    }
    lemma_next_char_at(s, pos, k, '\n');
    assert(s.subrange(pos, k) =~= body);
}

/// Stripping a line end takes off only '\n' and '\r', from the end, until
/// the text ends in neither.
proof fn lemma_strip_line_end(t: Seq<char>)
    ensures
        strip_line_end(t).len() <= t.len(),
        strip_line_end(t) == t.subrange(0, strip_line_end(t).len() as int),
        strip_line_end(t).len() > 0 ==> strip_line_end(t).last() != '\r' && strip_line_end(t).last() != '\n',
        forall|j: int| strip_line_end(t).len() <= j < t.len() ==> t[j] == '\r' || t[j] == '\n',
    decreases t.len(),
{
    if t.len() > 0 && (t.last() == '\n' || t.last() == '\r') {
        lemma_strip_line_end(t.drop_last());
        let r = strip_line_end(t);
        assert(r == t.drop_last().subrange(0, r.len() as int));
        assert(r =~= t.subrange(0, r.len() as int));
        assert forall|j: int| r.len() <= j < t.len() implies t[j] == '\r' || t[j] == '\n' by {
            if j < t.len() - 1 {
                assert(t.drop_last()[j] == t[j]);
            }
        }
    } else {
        assert(t =~= t.subrange(0, t.len() as int));
    }
}

/// A line as the readers get it: the text from `pos` up to the next '\n'
/// (or the end), less the '\r's just before it; it holds no '\n' and never
/// ends in '\r', so that a line ended by "\r\n" reads as one ended by "\n".
pub proof fn lemma_line_at_shape(s: Seq<char>, pos: int)
    requires
        0 <= pos <= s.len(),
    ensures
        ({
            let l = line_at(s, pos);
            let e = next_char(s, pos, '\n');
            &&& pos + l.len() <= e <= s.len()
            &&& l == s.subrange(pos, pos + l.len())
            &&& forall|i: int| 0 <= i < l.len() ==> l[i] != '\n'
            &&& l.len() > 0 ==> l.last() != '\r'
            &&& forall|j: int| pos + l.len() <= j < e ==> s[j] == '\r'
            &&& e < s.len() ==> s[e] == '\n' && after_line(s, pos) == e + 1
            &&& e == s.len() ==> after_line(s, pos) == s.len()
        }),
{
    let e = next_char(s, pos, '\n');
    lemma_next_char_bounds(s, pos, '\n');
    let t = s.subrange(pos, e);
    lemma_strip_line_end(t);
    let l = line_at(s, pos);
    assert(l == t.subrange(0, l.len() as int));
    assert(l =~= s.subrange(pos, pos + l.len()));
    assert forall|i: int| 0 <= i < l.len() implies l[i] != '\n' by {
        assert(l[i] == s[pos + i]);
    }
    assert forall|j: int| pos + l.len() <= j < e implies s[j] == '\r' by {
        assert(t[j - pos] == s[j]);
    }
}

/// A line ended by "\r\n" reads as the same line ended by "\n": the line is
/// `body`, and the next one starts just after the '\n'.
pub proof fn lemma_crlf_line(pre: Seq<char>, body: Seq<char>, rest: Seq<char>)
    requires
        forall|i: int| 0 <= i < body.len() ==> body[i] != '\n',
        body.len() > 0 ==> body.last() != '\r',
    ensures
        line_at(pre + body + seq!['\r', '\n'] + rest, pre.len() as int) == body,
        after_line(pre + body + seq!['\r', '\n'] + rest, pre.len() as int) == pre.len() + body.len() + 2,
        line_at(pre + body + seq!['\n'] + rest, pre.len() as int) == body,
        after_line(pre + body + seq!['\n'] + rest, pre.len() as int) == pre.len() + body.len() + 1,
{
    let s = pre + body + seq!['\r', '\n'] + rest;
    let pos = pre.len() as int;
    let k = pos + body.len() + 1;
    assert forall|i: int| pos <= i < k implies s[i] != '\n' by {
        if i < pos + body.len() {
            assert(s[i] == body[i - pos]);
        }
    }
    lemma_next_char_at(s, pos, k, '\n');
    let t = s.subrange(pos, k);
    assert(t.drop_last() =~= body);
    assert(t.last() == '\r');
    if body.len() > 0 {
        assert(body.last() != '\r' && body.last() != '\n');
    }
    assert(strip_line_end(body) == body);
    let s2 = pre + body + seq!['\n'] + rest;
    assert(s2.subrange(pos, pos + body.len()) =~= body);
    lemma_line_at(s2, pos, body);
}

/// Reads the line that starts at `pos < s.len()`: its text without line
/// ending, and where the next line starts.
pub fn read_line_at(s: &Vec<char>, pos: usize) -> (r: (Vec<char>, usize))
    requires
        pos < s@.len(),
    ensures
        r.0@ == line_at(s@, pos as int),
        r.1 == after_line(s@, pos as int),
        pos < r.1 <= s@.len(),
{
    let e = find_char(s, pos, '\n');
    let mut end = e;
    while end > pos && (s[end - 1] == '\n' || s[end - 1] == '\r')
        invariant
            pos <= end <= e <= s@.len(),
            strip_line_end(s@.subrange(pos as int, e as int)) == strip_line_end(
                s@.subrange(pos as int, end as int),
            ),
        decreases end,
    {
        proof {
            assert(s@.subrange(pos as int, end as int).drop_last() =~= s@.subrange(pos as int, end - 1));
        }
        end = end - 1;
    }
    proof {
        let t = s@.subrange(pos as int, end as int);
        if t.len() > 0 {
            assert(t.last() == s@[end - 1]);
        }
    }
    let line = slice_chars(s, pos, end);
    let next = if e < s.len() {
        e + 1
    } else {
        e
    };
    (line, next)
}

/// UTF-8 takes at least one byte per character.
pub proof fn lemma_encode_utf8_len(chars: Seq<char>)
    ensures
        encode_utf8(chars).len() >= chars.len(),
    decreases chars.len(),
{
    if chars.len() > 0 {
        lemma_encode_utf8_len(chars.drop_first());
    }
}

/// The error of a text input that is not UTF-8, as `BufRead::read_line` gives
/// it (`std::io::Error::new` with `ErrorKind::InvalidData`). Nothing is stated of it.
#[verifier::external_body]
pub(crate) fn invalid_utf8_input() -> std::io::Error {
    std::io::Error::new(std::io::ErrorKind::InvalidData, "stream did not contain valid UTF-8")
}

/// The error of `String::from_utf8`, carried unopened.
#[verifier::external_type_specification]
#[verifier::external_body]
pub struct ExFromUtf8Error(std::string::FromUtf8Error);

/// `String::from_utf8`: a string exactly when the bytes are valid UTF-8, and
/// then the string whose UTF-8 encoding they are.
#[verifier::external_body]
pub(crate) fn string_from_utf8(bytes: Vec<u8>) -> (r: std::result::Result<String, std::string::FromUtf8Error>)
    ensures
        r is Ok <==> valid_utf8(bytes@),
        r matches Ok(s) ==> s@ == decode_utf8(bytes@),
{
    String::from_utf8(bytes)
}

// ---------------------------------------------------------------- bytes

/// The index of the first byte 10 ('\n') in `b` at or after `from`; `b.len()`
/// where there is none.
pub open spec fn next_newline(b: Seq<u8>, from: int) -> int
    decreases b.len() - from,
{
    if from < 0 || from >= b.len() {
        b.len() as int
    } else if b[from] == 10 {
        from
    } else {
        next_newline(b, from + 1)
    }
}

/// The search for a newline byte from `from >= 0` ends inside `b` or at its end.
pub proof fn lemma_next_newline_bounds(b: Seq<u8>, from: int)
    requires
        0 <= from,
    ensures
        0 <= next_newline(b, from) <= b.len(),
        from <= b.len() ==> from <= next_newline(b, from),
    decreases b.len() - from,
{
    if from < b.len() && b[from] != 10 {
        lemma_next_newline_bounds(b, from + 1);
    }
}

/// The search for a newline byte from `from` stops at `k` when none lies in
/// between and one (or the end) is at `k`.
pub proof fn lemma_next_newline_at(b: Seq<u8>, from: int, k: int)
    requires
        0 <= from <= k <= b.len(),
        forall|i: int| from <= i < k ==> b[i] != 10,
        k < b.len() ==> b[k] == 10,
    ensures
        next_newline(b, from) == k,
    decreases k - from,
{
    if from < k {
        lemma_next_newline_at(b, from + 1, k);
    }
}

/// The bytes of the first line of `b`: up to and with its '\n', or all of `b`.
pub open spec fn first_line_len(b: Seq<u8>) -> int {
    let e = next_newline(b, 0);
    if e < b.len() {
        e + 1
    } else {
        b.len() as int
    }
}

/// The lines at the start of `b` that are UTF-8, as text, and whether a line
/// that is not UTF-8 follows them (lines end after their '\n', the last one
/// at the end of `b`), as a reader of lines gets them.
pub open spec fn readable_lines(b: Seq<u8>) -> (Seq<char>, bool)
    decreases b.len(),
{
    if b.len() == 0 {
        (Seq::empty(), false)
    } else {
        let stop = first_line_len(b);
        if 0 < stop <= b.len() {
            let line = b.take(stop);
            if valid_utf8(line) {
                let rest = readable_lines(b.skip(stop));
                (decode_utf8(line) + rest.0, rest.1)
            } else {
                (Seq::empty(), true)
            }
        } else {
            (Seq::empty(), false)
        }
    }
}

/// The readable lines at the start of `input`, and whether a line that is not
/// UTF-8 follows them.
pub fn readable_text(input: &Vec<u8>) -> (r: (String, bool))
    ensures
        (r.0@, r.1) == readable_lines(input@),
{
    let n = input.len();
    let mut text = String::new();
    let mut from: usize = 0;
    proof {
        assert(input@.skip(0) =~= input@);
        assert(text@ + readable_lines(input@).0 =~= readable_lines(input@).0);
    }
    while from < n
        invariant
            from <= n == input@.len(),
            readable_lines(input@) == (
                text@ + readable_lines(input@.skip(from as int)).0,
                readable_lines(input@.skip(from as int)).1,
            ),
        decreases n - from,
    {
        let ghost bb = input@.skip(from as int);
        let mut e = from;
        while e < n && input[e] != 10
            invariant
                from <= e <= n == input@.len(),
                forall|i: int| from <= i < e ==> input@[i] != 10,
            decreases n - e,
        {
            e = e + 1;
        }
        let stop = if e < n {
            e + 1
        } else {
            n
        };
        proof {
            lemma_next_newline_at(bb, 0, e - from);
        }
        let mut line: Vec<u8> = Vec::new();
        let mut i = from;
        while i < stop
            invariant
                from <= i <= stop <= n == input@.len(),
                line@ == input@.subrange(from as int, i as int),
            decreases stop - i,
        {
            line.push(input[i]);
            proof {
                assert(input@.subrange(from as int, i + 1) =~= input@.subrange(from as int, i as int).push(
                    input@[i as int],
                ));
            }
            i = i + 1;
        }
        proof {
            assert(line@ =~= bb.take(stop - from));
            assert(bb.skip(stop - from) =~= input@.skip(stop as int));
        }
        match string_from_utf8(line) {
            Ok(s) => {
                let ghost before = text@;
                text.push_str(s.as_str());
                proof {
                    assert(before + (s@ + readable_lines(input@.skip(stop as int)).0) =~= text@ + readable_lines(
                        input@.skip(stop as int),
                    ).0);
                }
                from = stop;
            },
            Err(_) => {
                proof {
                    assert(text@ + Seq::<char>::empty() =~= text@);
                }
                return (text, true);
            },
        }
    }
    proof {
        assert(input@.skip(n as int) =~= Seq::<u8>::empty());
        assert(text@ + Seq::<char>::empty() =~= text@);
    }
    (text, false)
}

/// UTF-8 encodes a concatenation piece by piece.
pub proof fn lemma_encode_utf8_concat(a: Seq<char>, b: Seq<char>)
    ensures
        encode_utf8(a + b) == encode_utf8(a) + encode_utf8(b),
    decreases a.len(),
{
    if a.len() == 0 {
        assert(a + b =~= b);
        assert(encode_utf8(a) =~= Seq::<u8>::empty());
        assert(Seq::<u8>::empty() + encode_utf8(b) =~= encode_utf8(b));
    } else {
        lemma_encode_utf8_concat(a.drop_first(), b);
        assert((a + b).drop_first() =~= a.drop_first() + b);
        assert((a + b)[0] == a[0]);
        assert(encode_utf8(a + b) =~= encode_utf8(a) + encode_utf8(b));
    }
}

/// A character other than '\n' has no byte 10 in its UTF-8 encoding, and
/// '\n' is that one byte.
proof fn lemma_scalar_newline(c: char)
    ensures
        c == '\n' ==> encode_scalar(c as u32) == seq![10u8],
        c != '\n' ==> forall|i: int| 0 <= i < encode_scalar(c as u32).len() ==> #[trigger] encode_scalar(c as u32)[i] != 10,
{
    let v = c as u32;
    if has_width_1_encoding(v) {
        assert(((v & 0x7Fu32) as u8) as u32 == v) by (bit_vector)
            requires
                v <= 0x7Fu32,
        ;
        if c == '\n' {
            assert(encode_scalar(v) =~= seq![10u8]);
        }
    } else {
        assert(forall|x: u8| #[trigger] (0x80u8 | x) >= 0x80u8) by (bit_vector);
        assert(forall|x: u8| #[trigger] (0xC0u8 | x) >= 0x80u8) by (bit_vector);
        assert(forall|x: u8| #[trigger] (0xE0u8 | x) >= 0x80u8) by (bit_vector);
        assert(forall|x: u8| #[trigger] (0xF0u8 | x) >= 0x80u8) by (bit_vector);
    }
}

/// The UTF-8 encoding of a text with no '\n' has no byte 10.
proof fn lemma_encode_no_newline(t: Seq<char>)
    requires
        lacks(t, '\n'),
    ensures
        forall|i: int| 0 <= i < encode_utf8(t).len() ==> #[trigger] encode_utf8(t)[i] != 10,
    decreases t.len(),
{
    if t.len() > 0 {
        assert(t[0] != '\n');
        lemma_scalar_newline(t[0]);
        let rest = t.drop_first();
        assert forall|i: int| 0 <= i < rest.len() implies #[trigger] rest[i] != '\n' by {
            assert(rest[i] == t[i + 1]);
        }
        lemma_encode_no_newline(rest);
        let a = encode_scalar(t[0] as u32);
        let b = encode_utf8(rest);
        assert(encode_utf8(t) == a + b);
        assert forall|i: int| 0 <= i < encode_utf8(t).len() implies #[trigger] encode_utf8(t)[i] != 10 by {
            if i < a.len() {
                assert(encode_utf8(t)[i] == a[i]);
            } else {
                assert(encode_utf8(t)[i] == b[i - a.len()]);
            }
        }
    }
}

/// The readable lines of the UTF-8 encoding of a text are that text, with no
/// unreadable line after it.
pub proof fn lemma_readable_encoded(t: Seq<char>)
    ensures
        readable_lines(encode_utf8(t)) == (t, false),
    decreases t.len(),
{
    let b = encode_utf8(t);
    lemma_encode_utf8_len(t);
    if t.len() == 0 {
        assert(b =~= Seq::<u8>::empty());
        assert(t =~= Seq::<char>::empty());
    } else {
        lemma_next_char_bounds(t, 0, '\n');
        let k = next_char(t, 0, '\n');
        let head = t.take(k);
        assert(lacks(head, '\n'));
        lemma_encode_no_newline(head);
        if k < t.len() {
            let t1 = t.take(k + 1);
            let t2 = t.skip(k + 1);
            assert(t =~= t1 + t2);
            assert(t1 =~= head + seq!['\n']);
            lemma_encode_utf8_concat(t1, t2);
            lemma_encode_utf8_concat(head, seq!['\n']);
            lemma_scalar_newline('\n');
            assert(encode_utf8(seq!['\n']) =~= seq![10u8]) by {
                let x = seq!['\n'];
                assert(x[0] == '\n');
                assert(x.drop_first() =~= Seq::<char>::empty());
                assert(encode_utf8(x.drop_first()) =~= Seq::<u8>::empty());
                assert(encode_utf8(x) == encode_scalar(x[0] as u32) + encode_utf8(x.drop_first()));
            }
            let h = encode_utf8(head).len() as int;
            assert(b == encode_utf8(head) + seq![10u8] + encode_utf8(t2));
            assert(b[h] == 10);
            assert forall|i: int| 0 <= i < h implies b[i] != 10 by {
                assert(b[i] == encode_utf8(head)[i]);
            }
            lemma_next_newline_at(b, 0, h);
            let stop = first_line_len(b);
            assert(stop == encode_utf8(t1).len());
            assert(b.take(stop) =~= encode_utf8(t1));
            assert(b.skip(stop) =~= encode_utf8(t2));
            vstd::utf8::encode_utf8_valid_utf8(t1);
            vstd::utf8::encode_utf8_decode_utf8(t1);
            lemma_readable_encoded(t2);
            assert(readable_lines(b) == (t1 + t2, false));
        } else {
            assert(head =~= t);
            assert forall|i: int| 0 <= i < b.len() implies b[i] != 10 by {
                assert(b[i] == encode_utf8(head)[i]);
            }
            lemma_next_newline_at(b, 0, b.len() as int);
            assert(first_line_len(b) == b.len());
            assert(b.take(b.len() as int) =~= b);
            assert(b.skip(b.len() as int) =~= Seq::<u8>::empty());
            vstd::utf8::encode_utf8_valid_utf8(t);
            vstd::utf8::encode_utf8_decode_utf8(t);
            assert(readable_lines(Seq::<u8>::empty()) == (Seq::<char>::empty(), false));
            assert(t + Seq::<char>::empty() =~= t);
            assert(readable_lines(b) == (t + Seq::<char>::empty(), false));
        }
    }
}

} // verus!
