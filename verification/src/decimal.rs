//! Unsigned numbers in decimal notation, as bytes of ASCII digits.

use vstd::prelude::*;

verus! {

/// The digit `0`.
pub const ZERO: u8 = 48;

/// The digit `9`.
pub const NINE: u8 = 57;

/// The byte is an ASCII digit.
pub open spec fn is_digit(byte: u8) -> bool {
    ZERO <= byte <= NINE
}

/// The number that a sequence of digits denotes, the most significant first.
pub open spec fn digits_value(digits: Seq<u8>) -> nat
    decreases digits.len(),
{
    if digits.len() == 0 {
        0
    } else {
        (digits_value(digits.drop_last()) * 10 + (digits.last() - ZERO)) as nat
    }
}

/// The decimal notation of a number, without leading zeros.
pub open spec fn decimal(n: nat) -> Seq<u8>
    decreases n,
{
    if n < 10 {
        seq![(ZERO + n) as u8]
    } else {
        decimal(n / 10).push((ZERO + n % 10) as u8)
    }
}

/// Where the digits that start at `from` end: the index of the first byte
/// from there on that is no digit, or the length of the input.
pub open spec fn digits_end(input: Seq<u8>, from: int) -> int
    decreases input.len() - from,
{
    if 0 <= from < input.len() && is_digit(input[from]) {
        digits_end(input, from + 1)
    } else {
        from
    }
}

/// The number written at `from`, and where it ends. A number is the digit
/// `0`, or a digit from `1` to `9` and all the digits that follow it; it must
/// fit 64 bits.
pub open spec fn number_at(input: Seq<u8>, from: int) -> Option<(u64, int)> {
    if !(0 <= from < input.len()) || !is_digit(input[from]) {
        None
    } else if input[from] == ZERO {
        Some((0u64, from + 1))
    } else {
        let end = digits_end(input, from);
        let value = digits_value(input.subrange(from, end));
        if value <= u64::MAX {
            Some((value as u64, end))
        } else {
            None
        }
    }
}

/// The digits that start at `from` reach up to their end, and no further.
pub proof fn lemma_digits_end(input: Seq<u8>, from: int)
    requires
        0 <= from <= input.len(),
    ensures
        from <= digits_end(input, from) <= input.len(),
        forall|k: int| from <= k < digits_end(input, from) ==> is_digit(#[trigger] input[k]),
        digits_end(input, from) < input.len() ==> !is_digit(input[digits_end(input, from)]),
    decreases input.len() - from,
{
    if from < input.len() && is_digit(input[from]) {
        lemma_digits_end(input, from + 1);
    }
}

/// The digits that start at `from` end where those that start at a digit
/// among them end.
pub proof fn lemma_digits_end_from_within(input: Seq<u8>, from: int, within: int)
    requires
        0 <= from <= within <= input.len(),
        forall|k: int| from <= k < within ==> is_digit(#[trigger] input[k]),
    ensures
        digits_end(input, from) == digits_end(input, within),
    decreases within - from,
{
    if from < within {
        assert(is_digit(input[from]));
        lemma_digits_end_from_within(input, from + 1, within);
    }
}

/// One more digit makes a number ten times as large, and the digit more.
pub proof fn lemma_digits_value_push(digits: Seq<u8>, digit: u8)
    requires
        is_digit(digit),
    ensures
        digits_value(digits.push(digit)) == digits_value(digits) * 10 + (digit - ZERO),
        digits_value(digits.push(digit)) >= digits_value(digits),
{
    assert(digits.push(digit).drop_last() == digits);
    assert(digits.push(digit).last() == digit);
}

/// More digits do not make a number smaller.
pub proof fn lemma_digits_value_grows(input: Seq<u8>, from: int, middle: int, end: int)
    requires
        0 <= from <= middle <= end <= input.len(),
        forall|k: int| from <= k < end ==> is_digit(#[trigger] input[k]),
    ensures
        digits_value(input.subrange(from, middle)) <= digits_value(input.subrange(from, end)),
    decreases end - middle,
{
    if middle < end {
        lemma_digits_value_grows(input, from, middle, end - 1);
        assert(input.subrange(from, end) == input.subrange(from, end - 1).push(input[end - 1]));
        lemma_digits_value_push(input.subrange(from, end - 1), input[end - 1]);
    }
}

/// Reads the number written at `from`.
pub fn parse_number(input: &[u8], from: usize) -> (result: Option<(u64, usize)>)
    ensures
        match result {
            Some((value, end)) => number_at(input@, from as int) == Some((value, end as int)) && from < end
                <= input@.len(),
            None => number_at(input@, from as int).is_none(),
        },
{
    if from >= input.len() {
        return None;
    }
    let first = input[from];
    if first < ZERO || first > NINE {
        return None;
    }
    if first == ZERO {
        return Some((0, from + 1));
    }
    let mut value: u64 = 0;
    let mut end: usize = from;
    proof {
        lemma_digits_end(input@, from as int);
        assert(input@.subrange(from as int, from as int) =~= Seq::<u8>::empty());
    }
    while end < input.len() && ZERO <= input[end] && input[end] <= NINE
        invariant
            from <= end <= input.len(),
            from < input.len(),
            is_digit(input@[from as int]),
            input@[from as int] != ZERO,
            forall|k: int| from <= k < end ==> is_digit(#[trigger] input@[k]),
            value == digits_value(input@.subrange(from as int, end as int)),
        decreases input.len() - end,
    {
        let digit = (input[end] - ZERO) as u64;
        proof {
            assert(input@.subrange(from as int, end + 1) == input@.subrange(from as int, end as int).push(
                input@[end as int],
            ));
            lemma_digits_value_push(input@.subrange(from as int, end as int), input@[end as int]);
        }
        if value > (u64::MAX - digit) / 10 {
            proof {
                let last = digits_end(input@, from as int);
                lemma_digits_end_from_within(input@, from as int, end + 1);
                lemma_digits_end(input@, end + 1);
                lemma_digits_end(input@, from as int);
                lemma_digits_value_grows(input@, from as int, end + 1, last);
                assert(value * 10 + digit > u64::MAX);
                assert(digits_value(input@.subrange(from as int, end + 1)) > u64::MAX);
                assert(digits_value(input@.subrange(from as int, last)) > u64::MAX);
            }
            return None;
        }
        value = value * 10 + digit;
        end += 1;
    }
    proof {
        lemma_digits_end_from_within(input@, from as int, end as int);
    }
    Some((value, end))
}

/// Appends the decimal notation of `n`.
pub fn push_decimal(out: &mut Vec<u8>, n: u64)
    ensures
        final(out)@ == old(out)@ + decimal(n as nat),
    decreases n,
{
    if n >= 10 {
        push_decimal(out, n / 10);
    }
    out.push(ZERO + (n % 10) as u8);
    proof {
        if n >= 10 {
            assert(out@ =~= old(out)@ + decimal((n / 10) as nat).push((ZERO + n % 10) as u8));
        } else {
            assert(out@ =~= old(out)@ + seq![(ZERO + n) as u8]);
        }
    }
}

/// The decimal notation of a number is made of digits, starts with `0` only
/// for the number 0, and denotes the number.
pub proof fn lemma_decimal(n: nat)
    ensures
        decimal(n).len() >= 1,
        forall|k: int| 0 <= k < decimal(n).len() ==> is_digit(#[trigger] decimal(n)[k]),
        decimal(n)[0] == ZERO <==> n == 0,
        n == 0 ==> decimal(n).len() == 1,
        digits_value(decimal(n)) == n,
    decreases n,
{
    if n < 10 {
        assert(decimal(n).drop_last() =~= Seq::<u8>::empty());
        assert(digits_value(decimal(n)) == digits_value(Seq::<u8>::empty()) * 10 + n);
    } else {
        lemma_decimal(n / 10);
        lemma_digits_value_push(decimal(n / 10), (ZERO + n % 10) as u8);
    }
}

/// A number is read back from its decimal notation, whatever stands before
/// it, if no digit follows it.
pub proof fn lemma_number_at_decimal(before: Seq<u8>, n: u64, after: Seq<u8>)
    requires
        after.len() == 0 || !is_digit(after[0]),
    ensures
        number_at(before + decimal(n as nat) + after, before.len() as int) == Some(
            (n, (before.len() + decimal(n as nat).len()) as int),
        ),
{
    let notation = decimal(n as nat);
    let input = before + notation + after;
    let from = before.len() as int;
    let end = from + notation.len();
    lemma_decimal(n as nat);
    assert(input[from] == notation[0]);
    if n != 0 {
        assert forall|k: int| from <= k < end implies is_digit(#[trigger] input[k]) by {
            assert(input[k] == notation[k - from]);
        }
        lemma_digits_end_from_within(input, from, end);
        if end < input.len() {
            assert(input[end] == after[0]);
        }
        assert(digits_end(input, end) == end);
        assert(input.subrange(from, end) =~= notation);
    }
}

} // verus!
