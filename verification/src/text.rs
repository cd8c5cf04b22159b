//! Small building blocks for producing text: decimal rendering of numbers
//! and character-by-character string construction.

use vstd::prelude::*;
use vstd::string::StringExecFns;

verus! {

/// The character for a decimal digit `d` (`9` for anything above nine).
pub open spec fn digit_char(d: nat) -> char {
    if d == 0 { '0' }
    else if d == 1 { '1' }
    else if d == 2 { '2' }
    else if d == 3 { '3' }
    else if d == 4 { '4' }
    else if d == 5 { '5' }
    else if d == 6 { '6' }
    else if d == 7 { '7' }
    else if d == 8 { '8' }
    else { '9' }
}

/// The decimal digits of `n`, most significant first, without leading zeros
/// (the empty sequence for zero).
pub open spec fn nat_digits(n: nat) -> Seq<u8>
    decreases n,
{
    if n == 0 {
        Seq::empty()
    } else {
        nat_digits(n / 10).push((n % 10) as u8)
    }
}

/// The characters of a digit sequence.
pub open spec fn digits_text(ds: Seq<u8>) -> Seq<char> {
    ds.map_values(|d: u8| digit_char(d as nat))
}

/// The decimal text of a natural number, as `Display` writes it.
pub open spec fn nat_text(n: nat) -> Seq<char> {
    if n == 0 {
        seq!['0']
    } else {
        digits_text(nat_digits(n))
    }
}

/// The decimal text of an integer, as `Display` writes it.
pub open spec fn int_text(i: int) -> Seq<char> {
    if i < 0 {
        seq!['-'] + nat_text((-i) as nat)
    } else {
        nat_text(i as nat)
    }
}

/// Appends one character to a string (`String::push`).
#[verifier::external_body]
pub(crate) fn push_char(s: &mut String, c: char)
    ensures
        final(s)@ == old(s)@.push(c),
{
    s.push(c);
}

/// The character of a decimal digit.
pub fn digit_to_char(d: u8) -> (c: char)
    ensures
        c == digit_char(d as nat),
{
    if d == 0 { '0' }
    else if d == 1 { '1' }
    else if d == 2 { '2' }
    else if d == 3 { '3' }
    else if d == 4 { '4' }
    else if d == 5 { '5' }
    else if d == 6 { '6' }
    else if d == 7 { '7' }
    else if d == 8 { '8' }
    else { '9' }
}

/// Every digit of `nat_digits(n)` is below ten.
pub proof fn lemma_nat_digits_small(n: nat)
    ensures
        forall|i: int| 0 <= i < nat_digits(n).len() ==> #[trigger] nat_digits(n)[i] < 10,
    decreases n,
{
    if n > 0 {
        lemma_nat_digits_small(n / 10);
        assert((n % 10) < 10);
        assert(((n % 10) as u8) < 10);
        let ds = nat_digits(n);
        assert(ds == nat_digits(n / 10).push((n % 10) as u8));
        assert forall|i: int| 0 <= i < ds.len() implies #[trigger] ds[i] < 10 by {
            if i < ds.len() - 1 {
                assert(ds[i] == nat_digits(n / 10)[i]);
            }
        }
    }
}

/// Appends the digits of `n` (most significant first) to `out`.
pub fn push_nat_digits(n: u64, out: &mut Vec<u8>)
    ensures
        final(out)@ == old(out)@ + nat_digits(n as nat),
    decreases n,
{
    if n > 0 {
        push_nat_digits(n / 10, out);
        out.push((n % 10) as u8);
        assert(nat_digits(n as nat) == nat_digits((n / 10) as nat).push((n % 10) as u8));
    } else {
        assert(nat_digits(0) =~= Seq::<u8>::empty());
        assert(old(out)@ + Seq::<u8>::empty() =~= old(out)@);
    }
}

/// Appends the characters of a digit sequence to `s`.
pub fn push_digits_text(s: &mut String, ds: &Vec<u8>)
    ensures
        final(s)@ == old(s)@ + digits_text(ds@),
{
    let mut i: usize = 0;
    while i < ds.len()
        invariant
            i <= ds@.len(),
            s@ == old(s)@ + digits_text(ds@.take(i as int)),
        decreases ds@.len() - i,
    {
        let c = digit_to_char(ds[i]);
        push_char(s, c);
        assert(digits_text(ds@.take(i + 1)) =~= digits_text(ds@.take(i as int)).push(c));
        i = i + 1;
    }
    assert(ds@.take(ds@.len() as int) =~= ds@);
}

/// Appends the decimal text of `n` to `s`.
pub fn push_u64_text(s: &mut String, n: u64)
    ensures
        final(s)@ == old(s)@ + nat_text(n as nat),
{
    if n == 0 {
        push_char(s, '0');
    } else {
        let mut ds: Vec<u8> = Vec::new();
        push_nat_digits(n, &mut ds);
        assert(ds@ =~= nat_digits(n as nat));
        proof {
            lemma_nat_digits_small(n as nat);
        }
        push_digits_text(s, &ds);
    }
}

/// Appends the decimal text of `i` to `s`.
pub fn push_i64_text(s: &mut String, i: i64)
    ensures
        final(s)@ == old(s)@ + int_text(i as int),
{
    if i < 0 {
        push_char(s, '-');
        let magnitude: u64 = if i == i64::MIN {
            9223372036854775808u64
        } else {
            (-i) as u64
        };
        push_u64_text(s, magnitude);
        assert(old(s)@.push('-') + nat_text(magnitude as nat) =~= old(s)@ + (seq!['-'] + nat_text(magnitude as nat)));
    } else {
        push_u64_text(s, i as u64);
    }
}

/// A new string holding `a` followed by `b`.
pub fn concat_str(a: &str, b: &str) -> (r: String)
    ensures
        r@ == a@ + b@,
{
    let mut r = String::from_str(a);
    r.append(b);
    r
}

/// A new string holding `a`, `b` and `c` in turn.
pub fn concat3(a: &str, b: &str, c: &str) -> (r: String)
    ensures
        r@ == a@ + b@ + c@,
{
    let mut r = String::from_str(a);
    r.append(b);
    r.append(c);
    r
}

} // verus!
