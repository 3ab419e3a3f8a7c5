//! Characters, canonical decimal numerals, and small text-building helpers
//! shared by the store codec and the report builder.
use vstd::prelude::*;

verus! {

/// Decimal digit characters.
pub open spec fn is_digit(c: char) -> bool {
    '0' <= c && c <= '9'
}

/// The character for one digit value.
pub open spec fn digit_char(d: int) -> char {
    if d == 0 {
        '0'
    } else if d == 1 {
        '1'
    } else if d == 2 {
        '2'
    } else if d == 3 {
        '3'
    } else if d == 4 {
        '4'
    } else if d == 5 {
        '5'
    } else if d == 6 {
        '6'
    } else if d == 7 {
        '7'
    } else if d == 8 {
        '8'
    } else {
        '9'
    }
}

/// The value of one digit character (0 for non-digits).
pub open spec fn digit_val(c: char) -> nat {
    if c == '0' {
        0
    } else if c == '1' {
        1
    } else if c == '2' {
        2
    } else if c == '3' {
        3
    } else if c == '4' {
        4
    } else if c == '5' {
        5
    } else if c == '6' {
        6
    } else if c == '7' {
        7
    } else if c == '8' {
        8
    } else if c == '9' {
        9
    } else {
        0
    }
}

/// The canonical decimal numeral of a number: no leading zeros, and `0`
/// itself is the single character `'0'`.
pub open spec fn digits_of(n: nat) -> Seq<char>
    decreases n,
{
    if n < 10 {
        seq![digit_char(n as int)]
    } else {
        digits_of(n / 10) + seq![digit_char((n % 10) as int)]
    }
}

/// The value of a digit sequence read as a decimal numeral.
pub open spec fn seq_val(ds: Seq<char>) -> nat
    decreases ds.len(),
{
    if ds.len() == 0 {
        0
    } else {
        seq_val(ds.drop_last()) * 10 + digit_val(ds.last())
    }
}

/// The pattern `pat` occurs in `s` starting at index `i`.
pub open spec fn has_at(s: Seq<char>, i: int, pat: Seq<char>) -> bool {
    &&& 0 <= i
    &&& i + pat.len() <= s.len()
    &&& s.subrange(i, i + pat.len()) == pat
}

pub proof fn lemma_digits_of_basic(n: nat)
    ensures
        digits_of(n).len() >= 1,
        forall|k: int| 0 <= k < digits_of(n).len() ==> is_digit(#[trigger] digits_of(n)[k]),
        digits_of(n)[0] != '0' || digits_of(n).len() == 1,
        seq_val(digits_of(n)) == n,
        digits_of(n).len() == 1 <==> n < 10,
    decreases n,
{
    if n < 10 {
        assert(digits_of(n) == seq![digit_char(n as int)]);
        assert(seq_val(digits_of(n)) == seq_val(digits_of(n).drop_last()) * 10 + digit_val(
            digits_of(n).last(),
        ));
        assert(digits_of(n).drop_last() =~= Seq::<char>::empty());
    } else {
        lemma_digits_of_basic(n / 10);
        let pre = digits_of(n / 10);
        let whole = digits_of(n);
        assert(whole == pre + seq![digit_char((n % 10) as int)]);
        assert(whole.drop_last() =~= pre);
        assert(whole.last() == digit_char((n % 10) as int));
        assert(seq_val(whole) == (n / 10) * 10 + (n % 10));
        assert((n / 10) * 10 + (n % 10) == n) by (nonlinear_arith);
        assert(whole[0] == pre[0]);
        assert(pre.len() >= 1 && whole.len() == pre.len() + 1);
        assert(n / 10 >= 1);
        if pre.len() == 1 {
            assert(n / 10 < 10);
            assert(pre == seq![digit_char((n / 10) as int)]);
            assert(1 <= n / 10 < 10);
            assert(pre[0] != '0');
        }
    }
}

/// Two canonical numerals of the same value are the same numeral: a digit
/// sequence without a leading zero is `digits_of` of its value.
pub proof fn lemma_canonical_digits(ds: Seq<char>)
    requires
        ds.len() >= 1,
        forall|k: int| 0 <= k < ds.len() ==> is_digit(#[trigger] ds[k]),
        ds[0] != '0' || ds.len() == 1,
    ensures
        ds == digits_of(seq_val(ds)),
    decreases ds.len(),
{
    let n = seq_val(ds);
    if ds.len() == 1 {
        assert(ds.drop_last() =~= Seq::<char>::empty());
        assert(seq_val(Seq::<char>::empty()) == 0);
        assert(ds.last() == ds[0]);
        assert(n == seq_val(ds.drop_last()) * 10 + digit_val(ds.last()));
        assert(n == digit_val(ds[0]));
        assert(n < 10);
        assert(digits_of(n) == seq![digit_char(n as int)]);
        assert(digit_char(digit_val(ds[0]) as int) == ds[0]);
        assert(ds =~= digits_of(n));
    } else {
        let pre = ds.drop_last();
        assert(pre[0] == ds[0]);
        assert(forall|k: int| 0 <= k < pre.len() ==> is_digit(#[trigger] pre[k]));
        lemma_canonical_digits(pre);
        let p = seq_val(pre);
        assert(n == p * 10 + digit_val(ds.last()));
        lemma_digits_of_basic(p);
        // p >= 1 because pre has no leading zero and length >= 1
        if p == 0 {
            assert(digits_of(0) == seq![digit_char(0)]);
            assert(pre == digits_of(0));
            assert(pre[0] == '0');
            assert(false);
        }
        assert(digit_val(ds.last()) < 10);
        assert(n >= 10) by (nonlinear_arith)
            requires
                p >= 1,
                n == p * 10 + digit_val(ds.last()),
        ;
        assert(n / 10 == p && n % 10 == digit_val(ds.last())) by (nonlinear_arith)
            requires
                n == p * 10 + digit_val(ds.last()),
                digit_val(ds.last()) < 10,
        ;
        assert(digits_of(n) == digits_of(p) + seq![digit_char(digit_val(ds.last()) as int)]);
        assert(is_digit(ds.last()));
        assert(digit_char(digit_val(ds.last()) as int) == ds.last());
        assert(ds =~= pre + seq![ds.last()]);
        assert(ds =~= digits_of(n));
    }
}

/// Relies on `Iterator::collect` building a `String` from its characters in
/// order.
#[verifier::external_body]
pub fn chars_to_string(v: &Vec<char>) -> (r: String)
    ensures
        r@ == v@,
{
    v.iter().collect()
}

/// The character for one digit value.
pub fn digit_to_char(d: u64) -> (c: char)
    requires
        d < 10,
    ensures
        c == digit_char(d as int),
{
    if d == 0 {
        '0'
    } else if d == 1 {
        '1'
    } else if d == 2 {
        '2'
    } else if d == 3 {
        '3'
    } else if d == 4 {
        '4'
    } else if d == 5 {
        '5'
    } else if d == 6 {
        '6'
    } else if d == 7 {
        '7'
    } else if d == 8 {
        '8'
    } else {
        '9'
    }
}

/// The value of a digit character, or `None` when `c` is no digit.
pub fn char_to_digit(c: char) -> (r: Option<u64>)
    ensures
        match r {
            Some(d) => is_digit(c) && d == digit_val(c) && d < 10,
            None => !is_digit(c),
        },
{
    match c {
        '0' => Some(0),
        '1' => Some(1),
        '2' => Some(2),
        '3' => Some(3),
        '4' => Some(4),
        '5' => Some(5),
        '6' => Some(6),
        '7' => Some(7),
        '8' => Some(8),
        '9' => Some(9),
        _ => None,
    }
}

/// Appends the canonical decimal numeral of `n` to `out`.
pub fn push_digits(out: &mut Vec<char>, n: u64)
    ensures
        final(out)@ == old(out)@ + digits_of(n as nat),
    decreases n,
{
    if n < 10 {
        out.push(digit_to_char(n));
        assert(final(out)@ =~= old(out)@ + digits_of(n as nat));
    } else {
        push_digits(out, n / 10);
        out.push(digit_to_char(n % 10));
        assert(digits_of(n as nat) == digits_of(n as nat / 10) + seq![
            digit_char((n as nat % 10) as int),
        ]);
        assert(n as nat / 10 == (n / 10) as nat);
        assert(final(out)@ =~= old(out)@ + digits_of(n as nat));
    }
}

/// Appends every character of `s` to `out`.
pub fn push_str_chars(out: &mut Vec<char>, s: &str)
    ensures
        final(out)@ == old(out)@ + s@,
{
    let n = s.unicode_len();
    let mut k: usize = 0;
    while k < n
        invariant
            k <= n,
            n == s@.len(),
            out@ == old(out)@ + s@.subrange(0, k as int),
        decreases n - k,
    {
        out.push(s.get_char(k));
        k = k + 1;
        assert(out@ =~= old(out)@ + s@.subrange(0, k as int));
    }
    assert(s@.subrange(0, n as int) =~= s@);
}

/// Appends every character of `pat` to `out`.
pub fn push_chars(out: &mut Vec<char>, pat: &Vec<char>)
    ensures
        final(out)@ == old(out)@ + pat@,
{
    let mut k: usize = 0;
    while k < pat.len()
        invariant
            k <= pat.len(),
            out@ == old(out)@ + pat@.subrange(0, k as int),
        decreases pat.len() - k,
    {
        out.push(pat[k]);
        k = k + 1;
        assert(out@ =~= old(out)@ + pat@.subrange(0, k as int));
    }
    assert(pat@.subrange(0, pat@.len() as int) =~= pat@);
}

} // verus!
