use vstd::prelude::*;

use crate::ranges::{count_range, lemma_count_bound};

verus! {

/// Calls `String::push`: appends `c` to `s`.
#[verifier::external_body]
pub(crate) fn push_char(s: &mut String, c: char)
    ensures
        final(s)@ == old(s)@.push(c),
{
    s.push(c);
}

/// The lower-case hexadecimal digit of `n`, as `{:x}` writes it.
pub open spec fn hex_digit(n: u8) -> char {
    if n < 10 { (48 + n) as char } else { (87 + n) as char }
}

/// The lower-case hexadecimal digit of a nibble.
pub fn hex_digit_exec(n: u8) -> (c: char)
    requires
        n < 16,
    ensures
        c == hex_digit(n),
{
    if n < 10 { (48 + n) as char } else { (87 + n) as char }
}

/// The decimal digit character of `d < 10`.
pub open spec fn digit_char(d: nat) -> char {
    (48 + d) as char
}

/// The decimal representation of `n`, most significant digit first.
pub open spec fn decimal_digits(n: nat) -> Seq<char>
    decreases n,
{
    if n < 10 {
        seq![digit_char(n)]
    } else {
        decimal_digits(n / 10).push(digit_char(n % 10))
    }
}

/// The first `k` digits of `d` written with `_` between groups of three
/// counted from the right: an underscore precedes every digit but the first
/// that has a multiple of three digits after it.
pub open spec fn grouped_prefix(d: Seq<char>, k: int) -> Seq<char>
    decreases k,
{
    if k <= 0 {
        Seq::empty()
    } else {
        let sep = if k - 1 > 0 && (d.len() - (k - 1)) % 3 == 0 { seq!['_'] } else { Seq::empty() };
        grouped_prefix(d, k - 1) + sep + seq![d[k - 1]]
    }
}

/// `n` in decimal with `_` between groups of three digits, as `1_234_567`.
pub open spec fn grouped_decimal(n: nat) -> Seq<char> {
    grouped_prefix(decimal_digits(n), decimal_digits(n).len() as int)
}

/// Writes `n` in decimal with `_` between groups of three digits.
pub fn format_num(n: usize) -> (s: String)
    ensures
        s@ == grouped_decimal(n as nat),
{
    let mut rev: Vec<char> = Vec::new();
    let mut m = n;
    loop
        invariant_except_break
            m > 0 || rev@.len() == 0,
        invariant
            m <= n,
            rev@.len() > 0 ==> decimal_digits(n as nat) == decimal_digits(m as nat).take(
                if m > 0 { decimal_digits(m as nat).len() as int } else { 0 }) + rev@.reverse(),
            rev@.len() == 0 ==> m == n,
        ensures
            rev@.len() > 0,
            decimal_digits(n as nat) == rev@.reverse(),
        decreases m,
    {
        let d = (m % 10) as u32;
        let c = char_of_digit(d);
        let ghost before = rev@;
        let ghost m_old = m;
        rev.push(c);
        m = m / 10;
        proof {
            assert(rev@.reverse() =~= seq![c] + before.reverse());
            if m_old >= 10 {
                assert(decimal_digits(m_old as nat) == decimal_digits(m as nat).push(c));
            }
        }
        if m == 0 {
            proof {
                assert(decimal_digits(m_old as nat) == seq![c]);
                if before.len() > 0 {
                    assert(decimal_digits(n as nat) == seq![c] + before.reverse());
                }
                assert(decimal_digits(n as nat) =~= rev@.reverse());
            }
            break;
        }
        proof {
            let dm = decimal_digits(m as nat);
            assert(dm.take(dm.len() as int) =~= dm);
            if before.len() > 0 {
                assert(decimal_digits(m_old as nat).take(decimal_digits(m_old as nat).len() as int) =~= decimal_digits(m_old as nat));
                assert(decimal_digits(n as nat) =~= dm + rev@.reverse());
            } else {
                assert(decimal_digits(n as nat) =~= dm + rev@.reverse());
            }
        }
    }
    let ghost digits = decimal_digits(n as nat);
    let len = rev.len();
    let mut out = String::new();
    let mut k: usize = 0;
    while k < len
        invariant
            len == rev@.len(),
            digits == rev@.reverse(),
            digits.len() == len,
            k <= len,
            out@ == grouped_prefix(digits, k as int),
        decreases len - k,
    {
        if k > 0 && (len - k) % 3 == 0 {
            push_char(&mut out, '_');
        }
        push_char(&mut out, rev[len - 1 - k]);
        proof {
            assert(digits[k as int] == rev@[len - 1 - k]);
            assert(out@ =~= grouped_prefix(digits, k + 1));
        }
        k = k + 1;
    }
    out
}

/// The character of a decimal digit.
fn char_of_digit(d: u32) -> (c: char)
    requires
        d < 10,
    ensures
        c == digit_char(d as nat),
{
    ((48 + d) as u8) as char
}

/// Positions at which two byte strings differ.
pub open spec fn bytes_differ(a: Seq<u8>, b: Seq<u8>) -> spec_fn(int) -> bool {
    |i: int| a[i] != b[i]
}

/// Number of positions, up to the shorter length, at which two byte
/// strings (such as two hexadecimal keys) differ.
pub fn count_differing_bytes(a: &[u8], b: &[u8]) -> (r: usize)
    ensures
        r == count_range(bytes_differ(a@, b@), 0, if a@.len() < b@.len() { a@.len() as int } else { b@.len() as int }),
{
    let len = if a.len() < b.len() { a.len() } else { b.len() };
    let mut diff: usize = 0;
    for i in 0..len
        invariant
            len <= a@.len(),
            len <= b@.len(),
            diff == count_range(bytes_differ(a@, b@), 0, i as int),
    {
        proof {
            lemma_count_bound(bytes_differ(a@, b@), 0, i as int);
        }
        if a[i] != b[i] {
            diff = diff + 1;
        }
    }
    diff
}

} // verus!
