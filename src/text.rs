//! Character-level scanning of one text line: prefixes, substrings,
//! whitespace tokens, delimited fields and unsigned decimal numbers.
use vstd::prelude::*;
use vstd::string::*;

verus! {

/// Unicode white space, as `char::is_whitespace` has it.
pub open spec fn is_space(c: char) -> bool {
    let u = c as u32;
    (9 <= u <= 13) || u == 32 || u == 0x85 || u == 0xA0 || u == 0x1680 || (0x2000 <= u <= 0x200A)
        || u == 0x2028 || u == 0x2029 || u == 0x202F || u == 0x205F || u == 0x3000
}

pub open spec fn is_digit(c: char) -> bool {
    '0' <= c <= '9'
}

/// ASCII punctuation, the POSIX class `[[:punct:]]`.
pub open spec fn is_punct(c: char) -> bool {
    let u = c as u32;
    (33 <= u <= 47) || (58 <= u <= 64) || (91 <= u <= 96) || (123 <= u <= 126)
}

/// The first index at or after `i` whose character satisfies `p`, or the length.
pub open spec fn next_where(l: Seq<char>, i: int, p: spec_fn(char) -> bool) -> int
    decreases l.len() - i,
{
    if i < 0 || i >= l.len() || p(l[i]) {
        if i < 0 { 0 } else if i >= l.len() { l.len() as int } else { i }
    } else {
        next_where(l, i + 1, p)
    }
}

pub proof fn lemma_next_where_bounds(l: Seq<char>, i: int, p: spec_fn(char) -> bool)
    requires
        0 <= i <= l.len(),
    ensures
        i <= next_where(l, i, p) <= l.len(),
        forall|k: int| i <= k < next_where(l, i, p) ==> !p(l[k]),
        next_where(l, i, p) < l.len() ==> p(l[next_where(l, i, p)]),
    decreases l.len() - i,
{
    if i < l.len() && !p(l[i]) {
        lemma_next_where_bounds(l, i + 1, p);
    }
}

pub open spec fn space_pred() -> spec_fn(char) -> bool {
    |c: char| is_space(c)
}

pub open spec fn nonspace_pred() -> spec_fn(char) -> bool {
    |c: char| !is_space(c)
}

pub open spec fn char_pred(x: char) -> spec_fn(char) -> bool {
    |c: char| c == x
}

/// `l` begins with `p`.
pub open spec fn has_prefix(l: Seq<char>, p: Seq<char>) -> bool {
    p.len() <= l.len() && l.subrange(0, p.len() as int) == p
}

/// `p` occurs somewhere in `l`.
pub open spec fn occurs_in(l: Seq<char>, p: Seq<char>) -> bool {
    exists|i: int| 0 <= i && i + p.len() <= l.len() && #[trigger] l.subrange(i, i + p.len()) == p
}

/// The whitespace-separated tokens of `l` from index `i` on.
pub open spec fn tokens_from(l: Seq<char>, i: int) -> Seq<Seq<char>>
    decreases l.len() - i,
    via tokens_from_decreases
{
    if i < 0 || i >= l.len() {
        seq![]
    } else if is_space(l[i]) {
        tokens_from(l, i + 1)
    } else {
        let e = next_where(l, i + 1, space_pred());
        seq![l.subrange(i, e)] + tokens_from(l, e)
    }
}

#[via_fn]
proof fn tokens_from_decreases(l: Seq<char>, i: int) {
    if 0 <= i < l.len() && !is_space(l[i]) {
        lemma_next_where_bounds(l, i + 1, space_pred());
    }
}

/// The whitespace-separated tokens of a line, as `str::split_whitespace` gives them.
pub open spec fn tokens(l: Seq<char>) -> Seq<Seq<char>> {
    tokens_from(l, 0)
}

/// `l` with leading and trailing white space removed.
pub open spec fn trim(l: Seq<char>) -> Seq<char> {
    let a = next_where(l, 0, nonspace_pred());
    let b = last_nonspace_end(l);
    if a < b { l.subrange(a, b) } else { seq![] }
}

/// One past the last character of `l` that is not white space, or 0.
pub open spec fn last_nonspace_end(l: Seq<char>) -> int
    decreases l.len(),
{
    if l.len() == 0 {
        0
    } else if !is_space(l.last()) {
        l.len() as int
    } else {
        last_nonspace_end(l.drop_last())
    }
}

/// The second piece of `l` split at `d`: what stands between the first `d`
/// and the next one (or the end). None when `d` does not occur.
pub open spec fn second_piece(l: Seq<char>, d: char) -> Option<Seq<char>> {
    let a = next_where(l, 0, char_pred(d));
    if a >= l.len() {
        None
    } else {
        Some(l.subrange(a + 1, next_where(l, a + 1, char_pred(d))))
    }
}

/// The value of a string of decimal digits.
pub open spec fn digits_value(t: Seq<char>) -> nat
    decreases t.len(),
{
    if t.len() == 0 {
        0
    } else {
        digits_value(t.drop_last()) * 10 + ((t.last() as u32) - 48) as nat
    }
}

/// The unsigned number that `t` denotes, as the standard library parses it:
/// an optional `+`, then one or more ASCII digits. None when `t` has another
/// form or the value exceeds `max`.
pub open spec fn unsigned_value(t: Seq<char>, max: nat) -> Option<nat> {
    let d = unsigned_digits(t);
    if all_digits(d) && digits_value(d) <= max {
        Some(digits_value(d))
    } else {
        None
    }
}

/// `t` without one leading `+`.
pub open spec fn unsigned_digits(t: Seq<char>) -> Seq<char> {
    if t.len() > 0 && t[0] == '+' { t.drop_first() } else { t }
}

/// `t` is one or more ASCII digits.
pub open spec fn all_digits(t: Seq<char>) -> bool {
    t.len() > 0 && forall|i: int| 0 <= i < t.len() ==> is_digit(#[trigger] t[i])
}

pub open spec fn nondigit_pred() -> spec_fn(char) -> bool {
    |c: char| !is_digit(c)
}

pub open spec fn nonpunct_pred() -> spec_fn(char) -> bool {
    |c: char| !is_punct(c)
}

/// The leftmost match, at or after `i`, of the pattern `([0-9]+)[[:punct:]]+([0-9]+)`
/// in `l`: its two digit groups.
pub open spec fn digit_pair_from(l: Seq<char>, i: int) -> Option<(Seq<char>, Seq<char>)>
    decreases l.len() - i,
    via digit_pair_from_decreases
{
    if i < 0 || i >= l.len() {
        None
    } else if !is_digit(l[i]) {
        digit_pair_from(l, i + 1)
    } else {
        let e = next_where(l, i + 1, nondigit_pred());
        let p = next_where(l, e, nonpunct_pred());
        if e < p < l.len() && is_digit(l[p]) {
            Some((l.subrange(i, e), l.subrange(p, next_where(l, p + 1, nondigit_pred()))))
        } else {
            digit_pair_from(l, e)
        }
    }
}

#[via_fn]
proof fn digit_pair_from_decreases(l: Seq<char>, i: int) {
    if 0 <= i < l.len() && is_digit(l[i]) {
        lemma_next_where_bounds(l, i + 1, nondigit_pred());
    }
}

/// The two digit groups of the leftmost match of `([0-9]+)[[:punct:]]+([0-9]+)` in `l`.
pub open spec fn digit_pair(l: Seq<char>) -> Option<(Seq<char>, Seq<char>)> {
    digit_pair_from(l, 0)
}

pub fn char_is_space(c: char) -> (r: bool)
    ensures
        r == is_space(c),
{
    let u = c as u32;
    (9 <= u && u <= 13) || u == 32 || u == 0x85 || u == 0xA0 || u == 0x1680 || (0x2000 <= u && u
        <= 0x200A) || u == 0x2028 || u == 0x2029 || u == 0x202F || u == 0x205F || u == 0x3000
}

/// Whether `line` begins with `p`.
pub fn starts_with(line: &str, p: &str) -> (r: bool)
    ensures
        r == has_prefix(line@, p@),
{
    let n = line.unicode_len();
    let m = p.unicode_len();
    if m > n {
        return false;
    }
    let mut k: usize = 0;
    while k < m
        invariant
            n == line@.len(),
            m == p@.len(),
            m <= n,
            k <= m,
            forall|i: int| 0 <= i < k ==> line@[i] == p@[i],
        decreases m - k,
    {
        if line.get_char(k) != p.get_char(k) {
            assert(line@.subrange(0, m as int)[k as int] != p@[k as int]);
            return false;
        }
        k = k + 1;
    }
    assert(line@.subrange(0, m as int) =~= p@);
    true
}

/// Whether `p` occurs in `line`.
pub fn contains(line: &str, p: &str) -> (r: bool)
    ensures
        r == occurs_in(line@, p@),
{
    let n = line.unicode_len();
    let m = p.unicode_len();
    if m > n {
        return false;
    }
    let mut i: usize = 0;
    loop
        invariant
            n == line@.len(),
            m == p@.len(),
            m <= n,
            i <= n - m,
            forall|j: int| 0 <= j < i ==> #[trigger] line@.subrange(j, j + p@.len()) != p@,
        decreases n - m + 1 - i,
    {
        let mut k: usize = 0;
        let mut same = true;
        while k < m
            invariant
                n == line@.len(),
                m == p@.len(),
                i + m <= n,
                k <= m,
                same ==> forall|q: int| 0 <= q < k ==> line@[i + q] == p@[q],
                !same ==> line@.subrange(i as int, i + m) != p@,
            decreases m - k,
        {
            if same && line.get_char(i + k) != p.get_char(k) {
                assert(line@.subrange(i as int, i + m)[k as int] != p@[k as int]);
                same = false;
            }
            k = k + 1;
        }
        if same {
            assert(line@.subrange(i as int, i + m) =~= p@);
            return true;
        }
        if i == n - m {
            proof {
                assert forall|j: int| 0 <= j && j + p@.len() <= line@.len()
                    implies #[trigger] line@.subrange(j, j + p@.len()) != p@ by {
                    assert(j <= i);
                }
            }
            return false;
        }
        i = i + 1;
    }
}

/// The first index at or after `i` holding `d`, or the length.
fn find_char(line: &str, n: usize, i: usize, d: char) -> (r: usize)
    requires
        n == line@.len(),
        i <= n,
    ensures
        r == next_where(line@, i as int, char_pred(d)),
{
    let mut j = i;
    while j < n && line.get_char(j) != d
        invariant
            n == line@.len(),
            i <= j <= n,
            next_where(line@, j as int, char_pred(d)) == next_where(line@, i as int, char_pred(d)),
        decreases n - j,
    {
        j = j + 1;
    }
    j
}

/// The first index at or after `i` holding white space, or the length.
fn find_space(line: &str, n: usize, i: usize) -> (r: usize)
    requires
        n == line@.len(),
        i <= n,
    ensures
        r == next_where(line@, i as int, space_pred()),
{
    let mut j = i;
    while j < n && !char_is_space(line.get_char(j))
        invariant
            n == line@.len(),
            i <= j <= n,
            next_where(line@, j as int, space_pred()) == next_where(line@, i as int, space_pred()),
        decreases n - j,
    {
        j = j + 1;
    }
    j
}

/// The whitespace-separated tokens of `line`.
pub fn split_tokens(line: &str) -> (r: Vec<String>)
    ensures
        r@.len() == tokens(line@).len(),
        forall|k: int| 0 <= k < r@.len() ==> #[trigger] r@[k]@ == tokens(line@)[k],
{
    let n = line.unicode_len();
    let mut out: Vec<String> = Vec::new();
    let mut i: usize = 0;
    while i < n
        invariant
            n == line@.len(),
            i <= n,
            out@.len() + tokens_from(line@, i as int).len() == tokens(line@).len(),
            forall|k: int| 0 <= k < out@.len() ==> #[trigger] out@[k]@ == tokens(line@)[k],
            forall|k: int| 0 <= k < tokens_from(line@, i as int).len()
                ==> tokens_from(line@, i as int)[k] == tokens(line@)[out@.len() + k],
        decreases n - i,
    {
        if char_is_space(line.get_char(i)) {
            i = i + 1;
        } else {
            let e = find_space(line, n, i + 1);
            proof {
                lemma_next_where_bounds(line@, i + 1, space_pred());
                assert(tokens_from(line@, i as int) == seq![line@.subrange(i as int, e as int)]
                    + tokens_from(line@, e as int));
            }
            let t = line.substring_char(i, e).to_owned();
            let ghost before = tokens_from(line@, i as int);
            out.push(t);
            proof {
                assert(before[0] == t@);
                assert forall|k: int| 0 <= k < tokens_from(line@, e as int).len()
                    implies tokens_from(line@, e as int)[k] == tokens(line@)[out@.len() + k] by {
                    assert(before[k + 1] == tokens_from(line@, e as int)[k]);
                }
            }
            i = e;
        }
    }
    out
}

pub fn char_is_digit(c: char) -> (r: bool)
    ensures
        r == is_digit(c),
{
    '0' <= c && c <= '9'
}

pub fn char_is_punct(c: char) -> (r: bool)
    ensures
        r == is_punct(c),
{
    let u = c as u32;
    (33 <= u && u <= 47) || (58 <= u && u <= 64) || (91 <= u && u <= 96) || (123 <= u && u <= 126)
}

/// The first index at or after `i` that holds no digit, or the length.
fn skip_digits(line: &str, n: usize, i: usize) -> (r: usize)
    requires
        n == line@.len(),
        i <= n,
    ensures
        r == next_where(line@, i as int, nondigit_pred()),
{
    let mut j = i;
    while j < n && char_is_digit(line.get_char(j))
        invariant
            n == line@.len(),
            i <= j <= n,
            next_where(line@, j as int, nondigit_pred()) == next_where(line@, i as int, nondigit_pred()),
        decreases n - j,
    {
        j = j + 1;
    }
    j
}

/// The first index at or after `i` that holds no punctuation, or the length.
fn skip_punct(line: &str, n: usize, i: usize) -> (r: usize)
    requires
        n == line@.len(),
        i <= n,
    ensures
        r == next_where(line@, i as int, nonpunct_pred()),
{
    let mut j = i;
    while j < n && char_is_punct(line.get_char(j))
        invariant
            n == line@.len(),
            i <= j <= n,
            next_where(line@, j as int, nonpunct_pred()) == next_where(line@, i as int, nonpunct_pred()),
        decreases n - j,
    {
        j = j + 1;
    }
    j
}

/// The two digit groups of the leftmost match of `([0-9]+)[[:punct:]]+([0-9]+)`
/// in `line`, or None when the pattern does not occur.
pub fn find_digit_pair(line: &str) -> (r: Option<(String, String)>)
    ensures
        match digit_pair(line@) {
            Some(g) => match r {
                Some((a, b)) => a@ == g.0 && b@ == g.1,
                None => false,
            },
            None => r is None,
        },
{
    let n = line.unicode_len();
    let mut i: usize = 0;
    while i < n
        invariant
            n == line@.len(),
            i <= n,
            digit_pair_from(line@, i as int) == digit_pair(line@),
        decreases n - i,
    {
        if !char_is_digit(line.get_char(i)) {
            i = i + 1;
        } else {
            let e = skip_digits(line, n, i + 1);
            proof { lemma_next_where_bounds(line@, i + 1, nondigit_pred()); }
            let p = skip_punct(line, n, e);
            proof { lemma_next_where_bounds(line@, e as int, nonpunct_pred()); }
            if e < p && p < n && char_is_digit(line.get_char(p)) {
                let q = skip_digits(line, n, p + 1);
                proof { lemma_next_where_bounds(line@, p + 1, nondigit_pred()); }
                let a = line.substring_char(i, e).to_owned();
                let b = line.substring_char(p, q).to_owned();
                return Some((a, b));
            }
            i = e;
        }
    }
    None
}

/// `line` with leading and trailing white space removed.
pub fn trim_text(line: &str) -> (r: String)
    ensures
        r@ == trim(line@),
{
    let n = line.unicode_len();
    let mut a: usize = 0;
    while a < n && char_is_space(line.get_char(a))
        invariant
            n == line@.len(),
            a <= n,
            next_where(line@, a as int, nonspace_pred()) == next_where(line@, 0, nonspace_pred()),
        decreases n - a,
    {
        a = a + 1;
    }
    let mut b: usize = n;
    assert(line@.subrange(0, n as int) =~= line@);
    while b > 0 && char_is_space(line.get_char(b - 1))
        invariant
            n == line@.len(),
            b <= n,
            last_nonspace_end(line@.subrange(0, b as int)) == last_nonspace_end(line@),
        decreases b,
    {
        assert(line@.subrange(0, b as int).drop_last() =~= line@.subrange(0, b - 1));
        b = b - 1;
    }
    proof {
        if b > 0 {
            assert(line@.subrange(0, b as int).last() == line@[b - 1]);
        }
        assert(line@.subrange(0, n as int) =~= line@);
    }
    if a < b {
        line.substring_char(a, b).to_owned()
    } else {
        String::new()
    }
}

/// The second piece of `line` split at `d`, or None when `d` does not occur.
pub fn second_piece_of(line: &str, d: char) -> (r: Option<String>)
    ensures
        match second_piece(line@, d) {
            Some(t) => r is Some && r->0@ == t,
            None => r is None,
        },
{
    let n = line.unicode_len();
    let a = find_char(line, n, 0, d);
    if a >= n {
        return None;
    }
    let b = find_char(line, n, a + 1, d);
    proof { lemma_next_where_bounds(line@, a + 1, char_pred(d)); }
    Some(line.substring_char(a + 1, b).to_owned())
}

/// The unsigned number that `t` denotes, if it is at most `max`.
pub fn parse_unsigned(t: &str, max: u64) -> (r: Option<u64>)
    requires
        max < 0xFFFF_FFFF_FFFF,
    ensures
        match unsigned_value(t@, max as nat) {
            Some(v) => r == Some(v as u64),
            None => r is None,
        },
{
    let n = t.unicode_len();
    let s: usize = if n > 0 && t.get_char(0) == '+' { 1 } else { 0 };
    let ghost d = unsigned_digits(t@);
    assert(d =~= t@.subrange(s as int, n as int));
    if s >= n {
        return None;
    }
    let mut v: u64 = 0;
    let mut k: usize = s;
    while k < n
        invariant
            n == t@.len(),
            s <= k <= n,
            d =~= t@.subrange(s as int, n as int),
            d == unsigned_digits(t@),
            max < 0xFFFF_FFFF_FFFF,
            forall|i: int| s <= i < k ==> is_digit(t@[i]),
            v <= max + 1,
            v <= max ==> v == digits_value(t@.subrange(s as int, k as int)),
            v > max ==> digits_value(t@.subrange(s as int, k as int)) > max,
        decreases n - k,
    {
        let c = t.get_char(k);
        if !char_is_digit(c) {
            assert(!is_digit(d[k - s]));
            assert(!all_digits(d));
            return None;
        }
        let ghost old_val = digits_value(t@.subrange(s as int, k as int));
        assert(t@.subrange(s as int, k + 1).drop_last() =~= t@.subrange(s as int, k as int));
        let ghost new_val = digits_value(t@.subrange(s as int, k + 1));
        assert(new_val == old_val * 10 + ((c as u32) - 48) as nat);
        let dig: u64 = ((c as u32) - 48) as u64;
        if v > max {
            assert(new_val > max) by (nonlinear_arith)
                requires new_val == old_val * 10 + dig, old_val > max;
        } else {
            let w = v * 10 + dig;
            if w > max {
                v = max + 1;
            } else {
                v = w;
            }
        }
        k = k + 1;
    }
    if v > max {
        None
    } else {
        Some(v)
    }
}

} // verus!
