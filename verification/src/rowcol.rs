//! Parsing of `row,col` cell coordinates, as given on the command line.
//!
//! The text is split at its first comma; each side, with surrounding
//! Unicode white space removed, is read as a decimal `usize` the way
//! `str::parse::<usize>` reads it (an optional leading `+`, then digits).

use vstd::prelude::*;

verus! {

/// Why a `row,col` text was refused.
#[derive(Debug, Clone, Copy, PartialEq, Eq, Structural)]
pub enum RowColError {
    /// The text holds no comma.
    NotRowCol,
    /// A side is empty (after trimming).
    Empty,
    /// A side holds a character that is no decimal digit.
    InvalidDigit,
    /// A side's value does not fit in `usize`.
    Overflow,
}

/// Unicode `White_Space`: the characters `char::is_whitespace` accepts.
pub open spec fn is_space(c: char) -> bool {
    let u = c as u32;
    ||| 0x9 <= u <= 0xd
    ||| u == 0x20
    ||| u == 0x85
    ||| u == 0xa0
    ||| u == 0x1680
    ||| 0x2000 <= u <= 0x200a
    ||| u == 0x2028
    ||| u == 0x2029
    ||| u == 0x202f
    ||| u == 0x205f
    ||| u == 0x3000
}

/// `s` without its leading white space.
pub open spec fn trim_start(s: Seq<char>) -> Seq<char>
    decreases s.len(),
{
    if s.len() > 0 && is_space(s[0]) {
        trim_start(s.drop_first())
    } else {
        s
    }
}

/// `s` without its trailing white space.
pub open spec fn trim_end(s: Seq<char>) -> Seq<char>
    decreases s.len(),
{
    if s.len() > 0 && is_space(s.last()) {
        trim_end(s.drop_last())
    } else {
        s
    }
}

/// `s` without surrounding white space.
pub open spec fn trim(s: Seq<char>) -> Seq<char> {
    trim_end(trim_start(s))
}

pub open spec fn is_digit(c: char) -> bool {
    '0' as u32 <= c as u32 <= '9' as u32
}

pub open spec fn digit_value(c: char) -> int {
    c as u32 - '0' as u32
}

/// Reading the first `k` characters of `d` as decimal digits: the first
/// character that is no digit, or the first digit that makes the value
/// overflow, decides the error.
pub open spec fn read_digits(d: Seq<char>, k: nat) -> Result<usize, RowColError>
    decreases k,
{
    if k == 0 {
        Ok(0usize)
    } else {
        match read_digits(d, (k - 1) as nat) {
            Err(e) => Err(e),
            Ok(v) => if !is_digit(d[k - 1]) {
                Err(RowColError::InvalidDigit)
            } else if v * 10 + digit_value(d[k - 1]) > usize::MAX {
                Err(RowColError::Overflow)
            } else {
                Ok((v * 10 + digit_value(d[k - 1])) as usize)
            },
        }
    }
}

/// `str::parse::<usize>` on the characters `t`.
pub open spec fn parse_usize(t: Seq<char>) -> Result<usize, RowColError> {
    if t.len() == 0 {
        Err(RowColError::Empty)
    } else if (t[0] == '+' || t[0] == '-') && t.len() == 1 {
        Err(RowColError::InvalidDigit)
    } else if t[0] == '+' {
        read_digits(t.drop_first(), (t.len() - 1) as nat)
    } else {
        read_digits(t, t.len())
    }
}

/// Position of the first comma of `s`, if any.
pub open spec fn first_comma(s: Seq<char>) -> Option<int> {
    if exists|k: int| 0 <= k < s.len() && s[k] == ',' {
        Some(choose|k: int| 0 <= k < s.len() && s[k] == ',' && forall|m: int| 0 <= m < k ==> s[m] != ',')
    } else {
        None
    }
}

/// The coordinates a `row,col` text denotes.
pub open spec fn row_col_of(s: Seq<char>) -> Result<(usize, usize), RowColError> {
    match first_comma(s) {
        None => Err(RowColError::NotRowCol),
        Some(k) => match parse_usize(trim(s.take(k))) {
            Err(e) => Err(e),
            Ok(r) => match parse_usize(trim(s.skip(k + 1))) {
                Err(e) => Err(e),
                Ok(c) => Ok((r, c)),
            },
        },
    }
}

/// The characters of `s`.
fn collect_chars(s: &str) -> (v: Vec<char>)
    ensures
        v@ == s@,
{
    let mut v: Vec<char> = Vec::new();
    for c in it: s.chars()
        invariant
            v@ == it.seq().take(it.index() as int),
    {
        v.push(c);
    }
    v
}

/// Exec form of [`is_space`].
fn char_is_space(c: char) -> (b: bool)
    ensures
        b == is_space(c),
{
    let u = c as u32;
    (0x9 <= u && u <= 0xd) || u == 0x20 || u == 0x85 || u == 0xa0 || u == 0x1680 || (0x2000 <= u && u <= 0x200a)
        || u == 0x2028 || u == 0x2029 || u == 0x202f || u == 0x205f || u == 0x3000
}

/// Bounds of `v[lo..hi]` without surrounding white space.
fn trim_bounds(v: &Vec<char>, lo: usize, hi: usize) -> (b: (usize, usize))
    requires
        lo <= hi <= v@.len(),
    ensures
        lo <= b.0 <= b.1 <= hi,
        v@.subrange(b.0 as int, b.1 as int) == trim(v@.subrange(lo as int, hi as int)),
{
    let mut a = lo;
    while a < hi && char_is_space(v[a])
        invariant
            lo <= a <= hi <= v@.len(),
            trim_start(v@.subrange(lo as int, hi as int)) == trim_start(v@.subrange(a as int, hi as int)),
        decreases hi - a,
    {
        proof {
            assert(v@.subrange(a as int, hi as int).drop_first() =~= v@.subrange(a + 1, hi as int));
        }
        a += 1;
    }
    proof {
        assert(trim_start(v@.subrange(a as int, hi as int)) == v@.subrange(a as int, hi as int));
    }
    let mut b = hi;
    while b > a && char_is_space(v[b - 1])
        invariant
            lo <= a <= b <= hi <= v@.len(),
            trim(v@.subrange(lo as int, hi as int)) == trim_end(v@.subrange(a as int, b as int)),
        decreases b - a,
    {
        proof {
            assert(v@.subrange(a as int, b as int).drop_last() =~= v@.subrange(a as int, b - 1));
        }
        b -= 1;
    }
    (a, b)
}

/// Read `v[lo..hi]` as decimal digits.
fn read_digits_exec(v: &Vec<char>, lo: usize, hi: usize) -> (r: Result<usize, RowColError>)
    requires
        lo <= hi <= v@.len(),
    ensures
        r == read_digits(v@.subrange(lo as int, hi as int), (hi - lo) as nat),
{
    let ghost d = v@.subrange(lo as int, hi as int);
    let mut value: usize = 0;
    let mut i = lo;
    while i < hi
        invariant
            lo <= i <= hi <= v@.len(),
            d == v@.subrange(lo as int, hi as int),
            read_digits(d, (i - lo) as nat) == Ok::<usize, RowColError>(value),
        decreases hi - i,
    {
        let c = v[i];
        proof {
            assert(d[i - lo] == c);
            assert(((i + 1 - lo) as nat - 1) as nat == (i - lo) as nat);
        }
        let u = c as u32;
        if !(0x30 <= u && u <= 0x39) {
            proof {
                assert(read_digits(d, (i + 1 - lo) as nat) == Err::<usize, RowColError>(RowColError::InvalidDigit));
                lemma_read_digits_err(d, (i + 1 - lo) as nat, (hi - lo) as nat);
            }
            return Err(RowColError::InvalidDigit);
        }
        let dv = (u - 0x30) as usize;
        match value.checked_mul(10) {
            None => {
                proof {
                    assert(read_digits(d, (i + 1 - lo) as nat) == Err::<usize, RowColError>(RowColError::Overflow));
                    lemma_read_digits_err(d, (i + 1 - lo) as nat, (hi - lo) as nat);
                }
                return Err(RowColError::Overflow);
            },
            Some(m) => match m.checked_add(dv) {
                None => {
                    proof {
                        assert(read_digits(d, (i + 1 - lo) as nat) == Err::<usize, RowColError>(RowColError::Overflow));
                        lemma_read_digits_err(d, (i + 1 - lo) as nat, (hi - lo) as nat);
                    }
                    return Err(RowColError::Overflow);
                },
                Some(x) => {
                    value = x;
                },
            },
        }
        i += 1;
    }
    Ok(value)
}

/// Once reading has failed, more characters keep the same error.
proof fn lemma_read_digits_err(d: Seq<char>, k: nat, m: nat)
    requires
        k <= m,
        read_digits(d, k) is Err,
    ensures
        read_digits(d, m) == read_digits(d, k),
    decreases m - k,
{
    if m > k {
        lemma_read_digits_err(d, k, (m - 1) as nat);
    }
}

/// Read `v[lo..hi]` as `str::parse::<usize>` does.
fn parse_usize_exec(v: &Vec<char>, lo: usize, hi: usize) -> (r: Result<usize, RowColError>)
    requires
        lo <= hi <= v@.len(),
    ensures
        r == parse_usize(v@.subrange(lo as int, hi as int)),
{
    let ghost t = v@.subrange(lo as int, hi as int);
    if lo == hi {
        return Err(RowColError::Empty);
    }
    let c = v[lo];
    proof {
        assert(t[0] == c);
    }
    if (c == '+' || c == '-') && hi - lo == 1 {
        return Err(RowColError::InvalidDigit);
    }
    if c == '+' {
        proof {
            assert(t.drop_first() =~= v@.subrange(lo + 1, hi as int));
        }
        read_digits_exec(v, lo + 1, hi)
    } else {
        read_digits_exec(v, lo, hi)
    }
}

/// Parse a `row,col` pair: split at the first comma, trim each side, and
/// read each as a decimal `usize`.
pub fn parse_row_col(s: &str) -> (r: Result<(usize, usize), RowColError>)
    ensures
        r == row_col_of(s@),
{
    let v = collect_chars(s);
    let n = v.len();
    let mut k: usize = 0;
    while k < n && v[k] != ','
        invariant
            k <= n == v@.len(),
            forall|m: int| 0 <= m < k ==> v@[m] != ',',
        decreases n - k,
    {
        k += 1;
    }
    if k == n {
        proof {
            assert(!exists|j: int| 0 <= j < v@.len() && v@[j] == ',');
        }
        return Err(RowColError::NotRowCol);
    }
    proof {
        assert(v@[k as int] == ',');
        let j = choose|j: int| 0 <= j < v@.len() && v@[j] == ',' && forall|m: int| 0 <= m < j ==> v@[m] != ',';
        assert(j == k as int) by {
            if j < k {
                assert(v@[j] != ',');
            }
            if j > k {
                assert(v@[k as int] != ',');
            }
        }
        assert(first_comma(v@) == Some(k as int));
        assert(v@.take(k as int) =~= v@.subrange(0, k as int));
        assert(v@.skip(k + 1) =~= v@.subrange(k + 1, n as int));
    }
    let (a, b) = trim_bounds(&v, 0, k);
    let row = match parse_usize_exec(&v, a, b) {
        Ok(x) => x,
        Err(e) => {
            return Err(e);
        },
    };
    let (c0, c1) = trim_bounds(&v, k + 1, n);
    let col = match parse_usize_exec(&v, c0, c1) {
        Ok(x) => x,
        Err(e) => {
            return Err(e);
        },
    };
    Ok((row, col))
}

/// The decimal digit character of `d`, for `d` from 0 to 9.
pub open spec fn digit_char(d: int) -> char {
    if d == 0 {
        '0'
    } else if d == 1 {
        '1'
    } else if d == 2 {
        '2'
    } else if d == 3 {
        '3'
    } else if d == 4 {
        '4'
    } else if d == 5 {
        '5'
    } else if d == 6 {
        '6'
    } else if d == 7 {
        '7'
    } else if d == 8 {
        '8'
    } else {
        '9'
    }
}

/// The decimal text of `v`: its digits, without sign or leading zeros.
pub open spec fn decimal(v: nat) -> Seq<char>
    decreases v,
{
    if v < 10 {
        seq![digit_char(v as int)]
    } else {
        decimal(v / 10).push(digit_char((v % 10) as int))
    }
}

/// Every character of `w` is white space.
pub open spec fn all_space(w: Seq<char>) -> bool {
    forall|t: int| 0 <= t < w.len() ==> is_space(#[trigger] w[t])
}

proof fn lemma_digit_char(d: int)
    requires
        0 <= d < 10,
    ensures
        is_digit(digit_char(d)),
        digit_value(digit_char(d)) == d,
        !is_space(digit_char(d)),
        digit_char(d) != ',',
        digit_char(d) != '+',
        digit_char(d) != '-',
{
}

proof fn lemma_decimal_digits(v: nat)
    ensures
        decimal(v).len() >= 1,
        forall|t: int| 0 <= t < decimal(v).len() ==> is_digit(#[trigger] decimal(v)[t]) && !is_space(decimal(v)[t])
            && decimal(v)[t] != ',' && decimal(v)[t] != '+' && decimal(v)[t] != '-',
    decreases v,
{
    if v < 10 {
        lemma_digit_char(v as int);
    } else {
        lemma_decimal_digits(v / 10);
        lemma_digit_char((v % 10) as int);
        let d = decimal(v / 10);
        assert forall|t: int| 0 <= t < decimal(v).len() implies is_digit(#[trigger] decimal(v)[t]) && !is_space(decimal(v)[t])
            && decimal(v)[t] != ',' && decimal(v)[t] != '+' && decimal(v)[t] != '-' by {
            if t < d.len() {
                assert(decimal(v)[t] == d[t]);
            }
        }
    }
}

/// Reading digits looks only at the characters it reads.
proof fn lemma_read_digits_prefix(a: Seq<char>, b: Seq<char>, k: nat)
    requires
        k <= a.len(),
        k <= b.len(),
        forall|t: int| 0 <= t < k ==> a[t] == b[t],
    ensures
        read_digits(a, k) == read_digits(b, k),
    decreases k,
{
    if k > 0 {
        lemma_read_digits_prefix(a, b, (k - 1) as nat);
    }
}

/// The decimal text of a `usize` reads back as that value.
proof fn lemma_read_decimal(v: nat)
    requires
        v <= usize::MAX,
    ensures
        read_digits(decimal(v), decimal(v).len()) == Ok::<usize, RowColError>(v as usize),
    decreases v,
{
    lemma_decimal_digits(v);
    if v < 10 {
        lemma_digit_char(v as int);
        assert(read_digits(decimal(v), 0) == Ok::<usize, RowColError>(0usize));
    } else {
        let d = decimal(v / 10);
        let x = digit_char((v % 10) as int);
        lemma_digit_char((v % 10) as int);
        lemma_read_decimal(v / 10);
        lemma_read_digits_prefix(decimal(v), d, d.len());
        assert(v == (v / 10) * 10 + v % 10);
        assert(decimal(v)[d.len() as int] == x);
    }
}

proof fn lemma_trim_start_spaces(w: Seq<char>, x: Seq<char>)
    requires
        all_space(w),
        x.len() > 0,
        !is_space(x[0]),
    ensures
        trim_start(w + x) == x,
    decreases w.len(),
{
    if w.len() == 0 {
        assert(w + x =~= x);
    } else {
        assert((w + x).drop_first() =~= w.drop_first() + x);
        assert((w + x)[0] == w[0]);
        lemma_trim_start_spaces(w.drop_first(), x);
    }
}

proof fn lemma_trim_end_spaces(x: Seq<char>, w: Seq<char>)
    requires
        all_space(w),
        x.len() > 0,
        !is_space(x.last()),
    ensures
        trim_end(x + w) == x,
    decreases w.len(),
{
    if w.len() == 0 {
        assert(x + w =~= x);
    } else {
        assert((x + w).drop_last() =~= x + w.drop_last());
        assert((x + w).last() == w.last());
        lemma_trim_end_spaces(x, w.drop_last());
    }
}

/// A number padded with white space trims to the number and parses.
proof fn lemma_padded_number(w1: Seq<char>, v: usize, w2: Seq<char>)
    requires
        all_space(w1),
        all_space(w2),
    ensures
        parse_usize(trim(w1 + decimal(v as nat) + w2)) == Ok::<usize, RowColError>(v),
        forall|t: int| 0 <= t < (w1 + decimal(v as nat) + w2).len() ==> #[trigger] (w1 + decimal(v as nat) + w2)[t] != ',',
{
    let d = decimal(v as nat);
    lemma_decimal_digits(v as nat);
    lemma_read_decimal(v as nat);
    assert(w1 + d + w2 =~= w1 + (d + w2));
    assert((d + w2)[0] == d[0]);
    lemma_trim_start_spaces(w1, d + w2);
    assert(d[d.len() - 1] == d.last());
    lemma_trim_end_spaces(d, w2);
    assert(trim(w1 + d + w2) == d);
    assert forall|t: int| 0 <= t < (w1 + d + w2).len() implies #[trigger] (w1 + d + w2)[t] != ',' by {
        if t < w1.len() {
            assert(is_space(w1[t]));
        } else if t < w1.len() + d.len() {
            assert((w1 + d + w2)[t] == d[t - w1.len()]);
        } else {
            assert((w1 + d + w2)[t] == w2[t - w1.len() - d.len()]);
            assert(is_space(w2[t - w1.len() - d.len()]));
        }
    }
}

/// Law: `row,col` text round-trips. The decimal text of any `r` and
/// `c`, joined by a comma, with white space around either number, parses
/// back to `(r, c)`.
pub proof fn lemma_row_col_round_trip(r: usize, c: usize, w1: Seq<char>, w2: Seq<char>, w3: Seq<char>, w4: Seq<char>)
    requires
        all_space(w1),
        all_space(w2),
        all_space(w3),
        all_space(w4),
    ensures
        row_col_of(w1 + decimal(r as nat) + w2 + seq![','] + (w3 + decimal(c as nat) + w4)) == Ok::<(usize, usize), RowColError>((r, c)),
{
    let a = w1 + decimal(r as nat) + w2;
    let b = w3 + decimal(c as nat) + w4;
    let s = a + seq![','] + b;
    lemma_padded_number(w1, r, w2);
    lemma_padded_number(w3, c, w4);
    let k0 = a.len() as int;
    assert(s[k0] == ',');
    assert forall|m: int| 0 <= m < k0 implies s[m] != ',' by {
        assert(s[m] == a[m]);
    }
    let k = choose|k: int| 0 <= k < s.len() && s[k] == ',' && forall|m: int| 0 <= m < k ==> s[m] != ',';
    assert(k == k0) by {
        if k < k0 {
            assert(s[k] == a[k]);
        }
    }
    assert(first_comma(s) == Some(k0));
    assert(s.take(k0) =~= a);
    assert(s.skip(k0 + 1) =~= b);
}

} // verus!
