//! Text building blocks: the decimal rendering of integers.

use vstd::prelude::*;

verus! {

/// Appends one character to a `String` (`String::push`).
/// Claimed: the new text is the old text followed by `c`.
#[verifier::external_body]
pub(crate) fn push_char(s: &mut String, c: char)
    ensures
        final(s)@ == old(s)@.push(c),
{
    s.push(c);
}

/// The ASCII digit for `d` (for `d < 10`).
pub open spec fn digit_char(d: nat) -> char {
    (d + 48) as char
}

/// The decimal rendering of a natural number, most significant digit first,
/// without leading zeros (`0` renders as `"0"`).
pub open spec fn decimal(n: nat) -> Seq<char>
    decreases n,
{
    if n < 10 {
        seq![digit_char(n)]
    } else {
        decimal(n / 10).push(digit_char(n % 10))
    }
}

/// The decimal rendering of an integer, with a leading `-` when it is negative.
pub open spec fn signed_decimal(n: int) -> Seq<char> {
    if n < 0 {
        seq!['-'] + decimal((-n) as nat)
    } else {
        decimal(n as nat)
    }
}

/// Decimal renderings are ASCII digits.
pub proof fn lemma_decimal_digits(n: nat)
    ensures
        forall|i: int|
            0 <= i < decimal(n).len() ==> '0' <= #[trigger] decimal(n)[i] <= '9',
        decimal(n).len() > 0,
    decreases n,
{
    if n >= 10 {
        lemma_decimal_digits(n / 10);
        assert forall|i: int| 0 <= i < decimal(n).len() implies '0' <= #[trigger] decimal(n)[i] <= '9' by {
            if i < decimal(n / 10).len() {
                assert(decimal(n)[i] == decimal(n / 10)[i]);
            }
        }
    }
}

/// The number that an ASCII digit stands for.
pub open spec fn digit_value(c: char) -> int {
    c as int - '0' as int
}

/// The number that a run of digits stands for, read in base ten.
pub open spec fn numeral_value(s: Seq<char>) -> int
    decreases s.len(),
{
    if s.len() == 0 {
        0
    } else {
        numeral_value(s.drop_last()) * 10 + digit_value(s.last())
    }
}

/// The number that a run of digits with an optional leading `-` stands for.
pub open spec fn signed_value(s: Seq<char>) -> int {
    if s.len() > 0 && s[0] == '-' {
        -numeral_value(s.drop_first())
    } else {
        numeral_value(s)
    }
}

/// Reading a decimal rendering back gives the number, and the rendering has
/// no leading zero.
pub proof fn lemma_decimal_reads_back(n: nat)
    ensures
        numeral_value(decimal(n)) == n,
        decimal(n).len() == 1 || decimal(n)[0] != '0',
    decreases n,
{
    lemma_decimal_digits(n);
    if n < 10 {
        let d = decimal(n);
        assert(d.drop_last() =~= Seq::<char>::empty());
        assert(numeral_value(d.drop_last()) == 0);
        assert(d.last() == digit_char(n));
        assert(digit_value(digit_char(n)) == n);
        assert(numeral_value(d) == numeral_value(d.drop_last()) * 10 + digit_value(d.last()));
    } else {
        lemma_decimal_reads_back(n / 10);
        let d = decimal(n);
        assert(d.drop_last() == decimal(n / 10));
        assert(d.last() == digit_char(n % 10));
        assert(digit_value(digit_char(n % 10)) == n % 10);
        assert(numeral_value(d) == numeral_value(d.drop_last()) * 10 + digit_value(d.last()));
        assert((n / 10) * 10 + n % 10 == n) by (nonlinear_arith);
        assert(d[0] == decimal(n / 10)[0]);
        if decimal(n / 10).len() == 1 {
            assert(n / 10 < 10) by {
                if n / 10 >= 10 {
                    lemma_decimal_digits(n / 100);
                    assert(decimal(n / 10).len() == decimal((n / 10) / 10).len() + 1);
                }
            }
            assert(n / 10 > 0);
            assert(decimal(n / 10)[0] == digit_char(n / 10));
        }
    }
}

/// Reading a signed decimal rendering back gives the number.
pub proof fn lemma_signed_decimal_reads_back(n: int)
    ensures
        signed_value(signed_decimal(n)) == n,
{
    if n < 0 {
        let d = decimal((-n) as nat);
        lemma_decimal_reads_back((-n) as nat);
        assert((seq!['-'] + d)[0] == '-');
        assert((seq!['-'] + d).drop_first() == d);
    } else {
        lemma_decimal_reads_back(n as nat);
        lemma_decimal_digits(n as nat);
        assert(decimal(n as nat)[0] != '-');
    }
}

/// A non-empty run of ASCII digits.
pub open spec fn is_numeral(s: Seq<char>) -> bool {
    s.len() > 0 && forall|i: int| 0 <= i < s.len() ==> '0' <= #[trigger] s[i] <= '9'
}

/// A numeral, or `-` followed by a numeral.
pub open spec fn is_signed_numeral(s: Seq<char>) -> bool {
    is_numeral(s) || (s.len() > 0 && s[0] == '-' && is_numeral(s.drop_first()))
}

/// A signed decimal rendering is a signed numeral that reads back to the
/// number.
pub proof fn lemma_signed_decimal_numeral(n: int)
    ensures
        is_signed_numeral(signed_decimal(n)),
        signed_value(signed_decimal(n)) == n,
{
    lemma_signed_decimal_reads_back(n);
    if n < 0 {
        let d = decimal((-n) as nat);
        lemma_decimal_digits((-n) as nat);
        assert((seq!['-'] + d).drop_first() == d);
    } else {
        lemma_decimal_digits(n as nat);
    }
}

fn digit(d: u64) -> (c: char)
    requires
        d < 10,
    ensures
        c == digit_char(d as nat),
{
    let b: u8 = d as u8 + 48u8;
    b as char
}

/// Appends the decimal rendering of `n` to `out`.
pub fn push_decimal(out: &mut String, n: u64)
    ensures
        final(out)@ == old(out)@ + decimal(n as nat),
{
    let ghost start = out@;
    let mut low: Vec<char> = Vec::new();
    let ghost mut suffix: Seq<char> = Seq::empty();
    let mut m: u64 = n;
    while m >= 10
        invariant
            decimal(n as nat) == decimal(m as nat) + suffix,
            low@.len() == suffix.len(),
            forall|k: int| 0 <= k < low@.len() ==> #[trigger] low@[k] == suffix[suffix.len() - 1 - k],
        decreases m,
    {
        let d = digit(m % 10);
        proof {
            assert(decimal(m as nat) == decimal((m / 10) as nat).push(d));
            assert(decimal(m as nat) + suffix == decimal((m / 10) as nat) + (seq![d] + suffix));
            suffix = seq![d] + suffix;
        }
        low.push(d);
        m = m / 10;
    }
    let lead = digit(m);
    push_char(out, lead);
    let mut k: usize = low.len();
    while k > 0
        invariant
            k <= low@.len(),
            low@.len() == suffix.len(),
            forall|j: int| 0 <= j < low@.len() ==> #[trigger] low@[j] == suffix[suffix.len() - 1 - j],
            out@ == start + seq![lead] + suffix.take(suffix.len() - k),
        decreases k,
    {
        k = k - 1;
        let c = low[k];
        proof {
            assert(suffix.take(suffix.len() - k) == suffix.take(suffix.len() - k - 1).push(c));
        }
        push_char(out, c);
    }
    assert(suffix.take(suffix.len() as int) == suffix);
    assert(decimal(m as nat) == seq![lead]);
}

/// The decimal rendering of `n`.
pub fn decimal_string(n: u64) -> (s: String)
    ensures
        s@ == decimal(n as nat),
{
    let mut s = String::new();
    push_decimal(&mut s, n);
    s
}

/// Appends the decimal rendering of the signed integer `n` to `out`.
pub fn push_signed_decimal(out: &mut String, n: i64)
    ensures
        final(out)@ == old(out)@ + signed_decimal(n as int),
{
    if n < 0 {
        push_char(out, '-');
        let magnitude: u64 = if n == i64::MIN {
            9223372036854775808u64
        } else {
            (-n) as u64
        };
        push_decimal(out, magnitude);
        assert(out@ == old(out)@ + (seq!['-'] + decimal(magnitude as nat)));
    } else {
        push_decimal(out, n as u64);
    }
}

} // verus!
