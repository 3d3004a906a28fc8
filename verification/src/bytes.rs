//! Numbers of sixteen bytes, the highest byte first.

use vstd::prelude::*;

verus! {

/// The number that some bytes spell, the highest first.
pub open spec fn number(bytes: Seq<u8>) -> nat
    decreases bytes.len(),
{
    if bytes.len() == 0 {
        0
    } else {
        number(bytes.drop_last()) * 256 + bytes.last() as nat
    }
}

/// A number in `n` bytes, the highest first.
pub open spec fn digits(value: nat, n: nat) -> Seq<u8>
    decreases n,
{
    if n == 0 {
        Seq::empty()
    } else {
        digits(value / 256, (n - 1) as nat).push((value % 256) as u8)
    }
}

/// Numbers that fit `n` bytes.
pub open spec fn range(n: nat) -> nat
    decreases n,
{
    if n == 0 {
        1
    } else {
        256 * range((n - 1) as nat)
    }
}

pub proof fn lemma_number_range(bytes: Seq<u8>)
    ensures
        number(bytes) < range(bytes.len()),
    decreases bytes.len(),
{
    if bytes.len() > 0 {
        lemma_number_range(bytes.drop_last());
    }
}

/// Writing a number and reading it back, or reading bytes and writing them back, changes
/// nothing.
pub proof fn digits_and_number_are_inverse(value: nat, bytes: Seq<u8>, n: nat)
    requires
        value < range(n),
        bytes.len() == n,
    ensures
        digits(value, n).len() == n,
        number(digits(value, n)) == value,
        digits(number(bytes), n) == bytes,
    decreases n,
{
    if n > 0 {
        let rest = value / 256;
        digits_and_number_are_inverse(rest, bytes.drop_last(), (n - 1) as nat);
        assert(digits(value, n).drop_last() =~= digits(rest, (n - 1) as nat));
        let before = number(bytes.drop_last());
        assert(number(bytes) / 256 == before);
        assert(number(bytes) % 256 == bytes.last());
        assert(digits(number(bytes), n) =~= bytes);
    } else {
        assert(bytes =~= Seq::empty());
    }
}

pub proof fn lemma_range_16()
    ensures
        range(16) == 0x1_0000_0000_0000_0000_0000_0000_0000_0000,
{
    reveal_with_fuel(range, 17);
}

/// Reads sixteen bytes.
pub fn read_number(bytes: &Vec<u8>, from: usize) -> (r: u128)
    requires
        from + 16 <= bytes@.len(),
    ensures
        r == number(bytes@.subrange(from as int, from + 16)),
{
    let count: usize = bytes.len();
    let mut value: u128 = 0;
    let ghost all = bytes@.subrange(from as int, from + 16);
    assert(all.take(0) =~= Seq::empty());
    proof {
        lemma_range_16();
    }
    for i in 0..16usize
        invariant
            from + 16 <= count,
            count == bytes@.len(),
            all == bytes@.subrange(from as int, from + 16),
            value == number(all.take(i as int)),
            range(16) == 0x1_0000_0000_0000_0000_0000_0000_0000_0000,
    {
        proof {
            assert(all.take(i + 1).drop_last() =~= all.take(i as int));
            lemma_number_range(all.take(i + 1));
            lemma_range_grows((i + 1) as nat, 16);
        }
        value = value * 256 + bytes[from + i] as u128;
    }
    assert(all.take(16) =~= all);
    value
}

proof fn lemma_range_grows(a: nat, b: nat)
    requires
        a <= b,
    ensures
        0 < range(a) <= range(b),
    decreases b,
{
    if a < b {
        lemma_range_grows(a, (b - 1) as nat);
    } else if a > 0 {
        lemma_range_grows((a - 1) as nat, (a - 1) as nat);
    }
}

/// Writes sixteen bytes.
pub fn push_number(out: &mut Vec<u8>, value: u128)
    ensures
        final(out)@ == old(out)@ + digits(value as nat, 16),
{
    let ghost before = out@;
    let mut divisor: u128 = 0x100_0000_0000_0000_0000_0000_0000_0000;
    proof {
        assert(range(15) == divisor) by {
            reveal_with_fuel(range, 16);
        }
        assert(digits(value as nat, 16).take(0) =~= Seq::empty());
        lemma_digits_len(value as nat, 16);
    }
    let mut i: usize = 0;
    while i < 16
        invariant
            i <= 16,
            i < 16 ==> divisor == range((15 - i) as nat),
            digits(value as nat, 16).len() == 16,
            out@ == before + digits(value as nat, 16).take(i as int),
        decreases 16 - i,
    {
        proof {
            lemma_digit(value as nat, 16, i as nat);
            lemma_range_grows(0, (15 - i) as nat);
        }
        let digit: u8 = ((value / divisor) % 256) as u8;
        out.push(digit);
        assert(digits(value as nat, 16).take(i + 1) =~= digits(value as nat, 16).take(i as int).push(
            digit,
        ));
        i = i + 1;
        if i < 16 {
            divisor = divisor / 256;
        }
    }
    assert(digits(value as nat, 16).take(16) =~= digits(value as nat, 16));
}

pub proof fn lemma_digits_len(value: nat, n: nat)
    ensures
        digits(value, n).len() == n,
    decreases n,
{
    if n > 0 {
        lemma_digits_len(value / 256, (n - 1) as nat);
    }
}

proof fn lemma_digit(value: nat, n: nat, i: nat)
    requires
        i < n,
    ensures
        digits(value, n)[i as int] == (value / range((n - 1 - i) as nat)) % 256,
    decreases n,
{
    lemma_digits_len(value / 256, (n - 1) as nat);
    if i < n - 1 {
        lemma_digit(value / 256, (n - 1) as nat, i);
        let r = range((n - 2 - i) as nat);
        lemma_range_grows(0, (n - 2 - i) as nat);
        assert((value / 256) / r == value / (256 * r)) by (nonlinear_arith)
            requires
                r > 0,
        ;
    } else {
        assert(range(0) == 1);
        assert(value / 1 == value);
    }
}

} // verus!
