//! String and decimal-number utilities shared by the XML pipeline:
//! decimal parsing and printing, path basename and extension extraction,
//! ASCII lowercasing, and path joining.

use vstd::prelude::*;
use vstd::string::*;

verus! {

// ---------------------------------------------------------------------------
// Decimal digits
// ---------------------------------------------------------------------------

pub open spec fn is_dec_digit(c: char) -> bool {
    '0' <= c && c <= '9'
}

pub open spec fn digit_val(c: char) -> int {
    c as int - '0' as int
}

pub open spec fn all_dec_digits(s: Seq<char>) -> bool {
    forall|i: int| 0 <= i < s.len() ==> is_dec_digit(#[trigger] s[i])
}

/// Value of a sequence of decimal digits, most significant first.
pub open spec fn digits_val(s: Seq<char>) -> int
    decreases s.len(),
{
    if s.len() == 0 {
        0
    } else {
        digits_val(s.drop_last()) * 10 + digit_val(s.last())
    }
}

pub open spec fn pow10(n: nat) -> int
    decreases n,
{
    if n == 0 {
        1
    } else {
        10 * pow10((n - 1) as nat)
    }
}

pub proof fn lemma_digits_val_nonneg(s: Seq<char>)
    requires
        all_dec_digits(s),
    ensures
        digits_val(s) >= 0,
    decreases s.len(),
{
    if s.len() > 0 {
        assert(all_dec_digits(s.drop_last()));
        lemma_digits_val_nonneg(s.drop_last());
    }
}

pub proof fn lemma_digits_val_bound(s: Seq<char>)
    requires
        all_dec_digits(s),
    ensures
        0 <= digits_val(s) < pow10(s.len()),
    decreases s.len(),
{
    if s.len() > 0 {
        assert(all_dec_digits(s.drop_last()));
        lemma_digits_val_bound(s.drop_last());
    }
}

/// A digit string without a leading zero is at least as large as the
/// smallest number with that many digits.
pub proof fn lemma_digits_val_lower(s: Seq<char>)
    requires
        all_dec_digits(s),
        s.len() >= 1,
        s[0] != '0',
    ensures
        digits_val(s) >= pow10((s.len() - 1) as nat),
    decreases s.len(),
{
    if s.len() == 1 {
        assert(digit_val(s[0]) >= 1);
    } else {
        assert(all_dec_digits(s.drop_last()));
        lemma_digits_val_lower(s.drop_last());
        assert(pow10((s.len() - 1) as nat) == 10 * pow10((s.len() - 2) as nat));
        assert(digit_val(s.last()) >= 0);
        assert(digits_val(s.drop_last()) * 10 >= pow10((s.len() - 2) as nat) * 10)
            by (nonlinear_arith)
            requires
                digits_val(s.drop_last()) >= pow10((s.len() - 2) as nat),
        ;
    }
}

/// Leading zeros do not change the value of a digit string.
pub proof fn lemma_digits_val_strip_zeros(s: Seq<char>, k: int)
    requires
        all_dec_digits(s),
        0 <= k <= s.len(),
        forall|i: int| 0 <= i < k ==> s[i] == '0',
    ensures
        digits_val(s) == digits_val(s.subrange(k, s.len() as int)),
    decreases s.len(),
{
    if k == s.len() {
        lemma_digits_val_zeros(s);
        assert(s.subrange(k, s.len() as int) =~= Seq::<char>::empty());
    } else {
        // s has at least one kept digit; recurse on drop_last
        let t = s.drop_last();
        assert(all_dec_digits(t));
        lemma_digits_val_strip_zeros(t, k);
        assert(s.subrange(k, s.len() as int).drop_last() =~= t.subrange(k, t.len() as int));
        assert(s.subrange(k, s.len() as int).last() == s.last());
    }
}

pub proof fn lemma_digits_val_zeros(s: Seq<char>)
    requires
        forall|i: int| 0 <= i < s.len() ==> s[i] == '0',
    ensures
        digits_val(s) == 0,
    decreases s.len(),
{
    if s.len() > 0 {
        lemma_digits_val_zeros(s.drop_last());
        assert(digit_val(s.last()) == 0);
    }
}

// ---------------------------------------------------------------------------
// Parsing signed decimal integers (the semantics of `str::parse::<i64>`:
// an optional sign, then one or more digits; anything else, or a value
// outside the i64 range, is rejected)
// ---------------------------------------------------------------------------

pub open spec fn parse_i64_spec(s: Seq<char>) -> Option<i64> {
    if s.len() == 0 {
        None
    } else {
        let ds = if s[0] == '-' || s[0] == '+' {
            s.subrange(1, s.len() as int)
        } else {
            s
        };
        let neg = s[0] == '-';
        if ds.len() == 0 || !all_dec_digits(ds) {
            None
        } else {
            let v = if neg {
                -digits_val(ds)
            } else {
                digits_val(ds)
            };
            if i64::MIN <= v <= i64::MAX {
                Some(v as i64)
            } else {
                None
            }
        }
    }
}

/// Whether every character of `s` from position `start` on is a digit.
fn scan_all_digits(s: &str, start: usize) -> (r: bool)
    requires
        start <= s@.len(),
    ensures
        r == all_dec_digits(s@.subrange(start as int, s@.len() as int)),
{
    let n: usize = s.unicode_len();
    let ghost sub = s@.subrange(start as int, s@.len() as int);
    let mut i: usize = start;
    while i < n
        invariant
            start <= i <= n,
            n == s@.len(),
            sub == s@.subrange(start as int, s@.len() as int),
            forall|j: int| start <= j < i ==> is_dec_digit(#[trigger] s@[j]),
        decreases n - i,
    {
        let c: char = s.get_char(i);
        if !('0' <= c && c <= '9') {
            proof {
                assert(sub[i - start] == s@[i as int]);
            }
            return false;
        }
        i = i + 1;
    }
    proof {
        assert forall|k: int| 0 <= k < sub.len() implies is_dec_digit(#[trigger] sub[k]) by {
            assert(sub[k] == s@[k + start]);
        }
    }
    true
}

/// Position of the first non-`'0'` character at or after `start`.
fn skip_zeros(s: &str, start: usize) -> (z: usize)
    requires
        start <= s@.len(),
    ensures
        start <= z <= s@.len(),
        forall|j: int| start <= j < z ==> s@[j] == '0',
        z < s@.len() ==> s@[z as int] != '0',
{
    let n: usize = s.unicode_len();
    let mut z: usize = start;
    while z < n && s.get_char(z) == '0'
        invariant
            start <= z <= n,
            n == s@.len(),
            forall|j: int| start <= j < z ==> s@[j] == '0',
        decreases n - z,
    {
        z = z + 1;
    }
    z
}

/// Value of the digit run `s[z..]`; sound because at most 19 digits fit
/// well inside a `u64`.
fn accumulate_digits(s: &str, z: usize) -> (acc: u64)
    requires
        z <= s@.len(),
        s@.len() - z <= 19,
        all_dec_digits(s@.subrange(z as int, s@.len() as int)),
    ensures
        acc == digits_val(s@.subrange(z as int, s@.len() as int)),
{
    let n: usize = s.unicode_len();
    let ghost kept = s@.subrange(z as int, s@.len() as int);
    proof {
        assert(pow10(19) == 10000000000000000000) by {
            reveal_with_fuel(pow10, 21);
        }
    }
    let mut acc: u64 = 0;
    let mut i: usize = z;
    while i < n
        invariant
            z <= i <= n,
            n == s@.len(),
            n - z <= 19,
            all_dec_digits(kept),
            kept == s@.subrange(z as int, s@.len() as int),
            acc == digits_val(kept.subrange(0, (i - z) as int)),
            acc < pow10((i - z) as nat),
            pow10(19) == 10000000000000000000,
        decreases n - i,
    {
        let c: char = s.get_char(i);
        proof {
            assert(c == kept[i - z]);
        }
        let d: u64 = char_digit_value(c);
        proof {
            let ghost w = (i - z) as nat;
            let pre = kept.subrange(0, w as int);
            let post = kept.subrange(0, w as int + 1);
            assert(post.drop_last() =~= pre);
            assert(post.last() == kept[w as int]);
            lemma_pow10_monotone((w + 1) as nat, 19);
            assert(pow10((w + 1) as nat) == 10 * pow10(w));
            assert(acc * 10 + d < pow10((w + 1) as nat)) by (nonlinear_arith)
                requires
                    acc < pow10(w),
                    d <= 9,
                    pow10((w + 1) as nat) == 10 * pow10(w),
            ;
        }
        acc = acc * 10 + d;
        i = i + 1;
    }
    proof {
        assert(kept.subrange(0, (n - z) as int) =~= kept);
    }
    acc
}

/// Parses a signed decimal integer exactly as `str::parse::<i64>` does.
pub fn parse_i64(s: &str) -> (r: Option<i64>)
    ensures
        r == parse_i64_spec(s@),
{
    let n: usize = s.unicode_len();
    if n == 0 {
        return None;
    }
    let c0: char = s.get_char(0);
    let neg: bool = c0 == '-';
    let start: usize = if c0 == '-' || c0 == '+' {
        1
    } else {
        0
    };
    let ghost ds = if s@[0] == '-' || s@[0] == '+' {
        s@.subrange(1, s@.len() as int)
    } else {
        s@
    };
    proof {
        assert(ds =~= s@.subrange(start as int, n as int));
    }
    if n == start {
        return None;
    }
    if !scan_all_digits(s, start) {
        return None;
    }
    let z: usize = skip_zeros(s, start);
    let ghost kept = s@.subrange(z as int, n as int);
    proof {
        assert(kept =~= ds.subrange((z - start) as int, ds.len() as int));
        lemma_digits_val_strip_zeros(ds, (z - start) as int);
        assert forall|k: int| 0 <= k < kept.len() implies is_dec_digit(#[trigger] kept[k]) by {
            assert(kept[k] == ds[k + (z - start)]);
        }
        lemma_digits_val_bound(kept);
        assert(pow10(19) == 10000000000000000000) by {
            reveal_with_fuel(pow10, 21);
        }
    }
    if n - z > 19 {
        // at least 20 significant digits: out of the i64 range either way
        proof {
            assert(kept[0] == s@[z as int]);
            lemma_digits_val_lower(kept);
            lemma_pow10_monotone(19, (kept.len() - 1) as nat);
        }
        return None;
    }
    let acc: u64 = accumulate_digits(s, z);
    proof {
        assert(acc == digits_val(ds));
        lemma_digits_val_nonneg(ds);
    }
    if neg {
        if acc <= 9223372036854775807u64 {
            Some(-(acc as i64))
        } else if acc == 9223372036854775808u64 {
            Some(i64::MIN)
        } else {
            None
        }
    } else {
        if acc <= 9223372036854775807u64 {
            Some(acc as i64)
        } else {
            None
        }
    }
}

/// The numeric value of one decimal digit character.
fn char_digit_value(c: char) -> (d: u64)
    requires
        is_dec_digit(c),
    ensures
        d == digit_val(c),
        d <= 9,
{
    (c as u32 as u64) - ('0' as u32 as u64)
}

pub proof fn lemma_pow10_pos(n: nat)
    ensures
        pow10(n) >= 1,
    decreases n,
{
    if n > 0 {
        lemma_pow10_pos((n - 1) as nat);
    }
}

pub proof fn lemma_pow10_monotone(a: nat, b: nat)
    requires
        a <= b,
    ensures
        1 <= pow10(a),
        pow10(a) <= pow10(b),
    decreases b,
{
    lemma_pow10_pos(a);
    if a < b {
        lemma_pow10_monotone(a, (b - 1) as nat);
        lemma_pow10_pos((b - 1) as nat);
    }
}

// ---------------------------------------------------------------------------
// Printing decimal integers
// ---------------------------------------------------------------------------

pub open spec fn digit_to_char(d: int) -> char {
    if d == 0 {
        '0'
    } else if d == 1 {
        '1'
    } else if d == 2 {
        '2'
    } else if d == 3 {
        '3'
    } else if d == 4 {
        '4'
    } else if d == 5 {
        '5'
    } else if d == 6 {
        '6'
    } else if d == 7 {
        '7'
    } else if d == 8 {
        '8'
    } else {
        '9'
    }
}

/// Decimal digits of a non-negative number, most significant first.
pub open spec fn dec_digits(n: int) -> Seq<char>
    decreases n,
{
    if n < 10 {
        seq![digit_to_char(n)]
    } else {
        dec_digits(n / 10).push(digit_to_char(n % 10))
    }
}

/// Decimal rendering of a signed number, as `format!("{n}")` writes it.
pub open spec fn i64_dec_str(n: int) -> Seq<char> {
    if n < 0 {
        seq!['-'] + dec_digits(-n)
    } else {
        dec_digits(n)
    }
}

fn digit_str(d: u64) -> (r: &'static str)
    requires
        d <= 9,
    ensures
        r@ =~= seq![digit_to_char(d as int)],
{
    proof {
        reveal_strlit("0");
        reveal_strlit("1");
        reveal_strlit("2");
        reveal_strlit("3");
        reveal_strlit("4");
        reveal_strlit("5");
        reveal_strlit("6");
        reveal_strlit("7");
        reveal_strlit("8");
        reveal_strlit("9");
    }
    match d {
        0 => "0",
        1 => "1",
        2 => "2",
        3 => "3",
        4 => "4",
        5 => "5",
        6 => "6",
        7 => "7",
        8 => "8",
        _ => "9",
    }
}

pub fn u64_to_string(n: u64) -> (r: String)
    ensures
        r@ == dec_digits(n as int),
    decreases n,
{
    if n < 10 {
        let s: &str = digit_str(n);
        s.to_owned()
    } else {
        let mut s: String = u64_to_string(n / 10);
        s.append(digit_str(n % 10));
        s
    }
}

pub fn i64_to_string(n: i64) -> (r: String)
    ensures
        r@ == i64_dec_str(n as int),
{
    if n >= 0 {
        u64_to_string(n as u64)
    } else {
        let magnitude: u64 = if n == i64::MIN {
            9223372036854775808u64
        } else {
            (-n) as u64
        };
        proof {
            reveal_strlit("-");
        }
        let mut s: String = "-".to_owned();
        s.append(u64_to_string(magnitude).as_str());
        s
    }
}

// ---------------------------------------------------------------------------
// String equality and suffixes
// ---------------------------------------------------------------------------

/// Character-wise equality of two string slices.
pub fn str_eq(a: &str, b: &str) -> (r: bool)
    ensures
        r == (a@ == b@),
{
    let na: usize = a.unicode_len();
    let nb: usize = b.unicode_len();
    if na != nb {
        return false;
    }
    let mut i: usize = 0;
    while i < na
        invariant
            0 <= i <= na,
            na == a@.len(),
            na == b@.len(),
            forall|j: int| 0 <= j < i ==> a@[j] == b@[j],
        decreases na - i,
    {
        if a.get_char(i) != b.get_char(i) {
            return false;
        }
        i = i + 1;
    }
    proof {
        assert(a@ =~= b@);
    }
    true
}

pub open spec fn ends_with_spec(s: Seq<char>, suffix: Seq<char>) -> bool {
    s.len() >= suffix.len() && s.subrange(s.len() - suffix.len(), s.len() as int) == suffix
}

pub fn str_ends_with(s: &str, suffix: &str) -> (r: bool)
    ensures
        r == ends_with_spec(s@, suffix@),
{
    let n: usize = s.unicode_len();
    let m: usize = suffix.unicode_len();
    if n < m {
        return false;
    }
    let tail: &str = s.substring_char(n - m, n);
    str_eq(tail, suffix)
}

/// The part of `s` after the last occurrence of `c`; all of `s` when `c`
/// does not occur.
pub open spec fn suffix_after_last(s: Seq<char>, c: char) -> Seq<char>
    decreases s.len(),
{
    if s.len() == 0 {
        s
    } else if s.last() == c {
        Seq::<char>::empty()
    } else {
        suffix_after_last(s.drop_last(), c).push(s.last())
    }
}

proof fn lemma_suffix_after_last(s: Seq<char>, c: char, k: int)
    requires
        0 <= k <= s.len(),
        forall|j: int| k <= j < s.len() ==> s[j] != c,
        k > 0 ==> s[k - 1] == c,
    ensures
        suffix_after_last(s, c) == s.subrange(k, s.len() as int),
    decreases s.len(),
{
    if k == s.len() {
        if s.len() > 0 {
            assert(s.last() == c);
        }
        assert(s.subrange(k, s.len() as int) =~= Seq::<char>::empty());
        if s.len() == 0 {
            assert(suffix_after_last(s, c) =~= s.subrange(k, s.len() as int));
        }
    } else {
        assert(s.last() != c);
        let t = s.drop_last();
        lemma_suffix_after_last(t, c, k);
        assert(s.subrange(k, s.len() as int).drop_last() =~= t.subrange(k, t.len() as int));
        assert(suffix_after_last(s, c) =~= s.subrange(k, s.len() as int));
    }
}

/// The part of `s` after the last occurrence of `c`, as a slice of `s`.
pub fn suffix_after_last_char<'a>(s: &'a str, c: char) -> (r: &'a str)
    ensures
        r@ == suffix_after_last(s@, c),
{
    let n: usize = s.unicode_len();
    let mut k: usize = n;
    while k > 0 && s.get_char(k - 1) != c
        invariant
            0 <= k <= n,
            n == s@.len(),
            forall|j: int| k <= j < n ==> s@[j] != c,
        decreases k,
    {
        k = k - 1;
    }
    proof {
        lemma_suffix_after_last(s@, c, k as int);
    }
    s.substring_char(k, n)
}

// ---------------------------------------------------------------------------
// Path basenames and file extensions
// ---------------------------------------------------------------------------

/// Final path component: the part after the last `/` separator.
pub open spec fn basename_spec(s: Seq<char>) -> Seq<char> {
    suffix_after_last(s, '/')
}

pub fn basename_of<'a>(s: &'a str) -> (r: &'a str)
    ensures
        r@ == basename_spec(s@),
{
    suffix_after_last_char(s, '/')
}

/// File extension of the final path component: the part after its last
/// `.`, provided that dot is not the component's first character.
pub open spec fn ext_spec(s: Seq<char>) -> Seq<char> {
    let b = basename_spec(s);
    let e = suffix_after_last(b, '.');
    if e.len() < b.len() && b.len() - e.len() - 1 > 0 {
        e
    } else {
        Seq::<char>::empty()
    }
}

pub fn ext_of<'a>(s: &'a str) -> (r: &'a str)
    ensures
        r@ == ext_spec(s@),
{
    let b: &str = basename_of(s);
    let e: &str = suffix_after_last_char(b, '.');
    let bl: usize = b.unicode_len();
    let el: usize = e.unicode_len();
    if el < bl && bl - el - 1 > 0 {
        e
    } else {
        proof {
            reveal_strlit("");
            assert(""@ =~= Seq::<char>::empty());
        }
        ""
    }
}

// ---------------------------------------------------------------------------
// ASCII lowercasing
// ---------------------------------------------------------------------------

pub open spec fn lower_char_spec(c: char) -> char {
    if c == 'A' {
        'a'
    } else if c == 'B' {
        'b'
    } else if c == 'C' {
        'c'
    } else if c == 'D' {
        'd'
    } else if c == 'E' {
        'e'
    } else if c == 'F' {
        'f'
    } else if c == 'G' {
        'g'
    } else if c == 'H' {
        'h'
    } else if c == 'I' {
        'i'
    } else if c == 'J' {
        'j'
    } else if c == 'K' {
        'k'
    } else if c == 'L' {
        'l'
    } else if c == 'M' {
        'm'
    } else if c == 'N' {
        'n'
    } else if c == 'O' {
        'o'
    } else if c == 'P' {
        'p'
    } else if c == 'Q' {
        'q'
    } else if c == 'R' {
        'r'
    } else if c == 'S' {
        's'
    } else if c == 'T' {
        't'
    } else if c == 'U' {
        'u'
    } else if c == 'V' {
        'v'
    } else if c == 'W' {
        'w'
    } else if c == 'X' {
        'x'
    } else if c == 'Y' {
        'y'
    } else if c == 'Z' {
        'z'
    } else {
        c
    }
}

pub open spec fn lower_seq(s: Seq<char>) -> Seq<char> {
    Seq::new(s.len(), |i: int| lower_char_spec(s[i]))
}

fn lower_ascii_str(c: char) -> (r: &'static str)
    requires
        'A' <= c && c <= 'Z',
    ensures
        r@ =~= seq![lower_char_spec(c)],
{
    proof {
        reveal_strlit("a");
        reveal_strlit("b");
        reveal_strlit("c");
        reveal_strlit("d");
        reveal_strlit("e");
        reveal_strlit("f");
        reveal_strlit("g");
        reveal_strlit("h");
        reveal_strlit("i");
        reveal_strlit("j");
        reveal_strlit("k");
        reveal_strlit("l");
        reveal_strlit("m");
        reveal_strlit("n");
        reveal_strlit("o");
        reveal_strlit("p");
        reveal_strlit("q");
        reveal_strlit("r");
        reveal_strlit("s");
        reveal_strlit("t");
        reveal_strlit("u");
        reveal_strlit("v");
        reveal_strlit("w");
        reveal_strlit("x");
        reveal_strlit("y");
        reveal_strlit("z");
    }
    match c {
        'A' => "a",
        'B' => "b",
        'C' => "c",
        'D' => "d",
        'E' => "e",
        'F' => "f",
        'G' => "g",
        'H' => "h",
        'I' => "i",
        'J' => "j",
        'K' => "k",
        'L' => "l",
        'M' => "m",
        'N' => "n",
        'O' => "o",
        'P' => "p",
        'Q' => "q",
        'R' => "r",
        'S' => "s",
        'T' => "t",
        'U' => "u",
        'V' => "v",
        'W' => "w",
        'X' => "x",
        'Y' => "y",
        _ => "z",
    }
}

/// ASCII lowercasing of a string, character by character.
pub fn to_ascii_lower(s: &str) -> (r: String)
    ensures
        r@ == lower_seq(s@),
{
    let n: usize = s.unicode_len();
    let mut out: String = String::new();
    let mut i: usize = 0;
    while i < n
        invariant
            0 <= i <= n,
            n == s@.len(),
            out@ =~= lower_seq(s@.take(i as int)),
        decreases n - i,
    {
        let c: char = s.get_char(i);
        if 'A' <= c && c <= 'Z' {
            out.append(lower_ascii_str(c));
        } else {
            out.append(s.substring_char(i, i + 1));
        }
        proof {
            assert(out@ =~= lower_seq(s@.take(i as int + 1)));
        }
        i = i + 1;
    }
    proof {
        assert(s@.take(n as int) =~= s@);
    }
    out
}

/// Lowercased file extension, as the package layout conventions use it.
pub fn ext_lower(s: &str) -> (r: String)
    ensures
        r@ == lower_seq(ext_spec(s@)),
{
    to_ascii_lower(ext_of(s))
}

// ---------------------------------------------------------------------------
// Path joining
// ---------------------------------------------------------------------------

pub open spec fn join_spec(dir: Seq<char>, name: Seq<char>) -> Seq<char> {
    dir + "/"@ + name
}

/// Joins one path component onto a directory with a `/` separator.
pub fn join_path(dir: &str, name: &str) -> (r: String)
    ensures
        r@ == join_spec(dir@, name@),
{
    let mut out: String = dir.to_owned();
    out.append("/");
    out.append(name);
    out
}

} // verus!
