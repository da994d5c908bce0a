//! Decimal digits as raw bytes `0..=9`, most significant digit first.

use vstd::prelude::*;

verus! {

/// The absolute value of `value`.
pub open spec fn magnitude(value: int) -> nat {
    if value < 0 {
        (-value) as nat
    } else {
        value as nat
    }
}

/// The decimal digits of `n`, most significant first; none for 0.
pub open spec fn decimal_digits(n: nat) -> Seq<u8>
    decreases n,
{
    if n == 0 {
        Seq::empty()
    } else {
        decimal_digits(n / 10).push((n % 10) as u8)
    }
}

/// The number that `digits` spell, most significant first; 0 for none.
pub open spec fn decimal_value(digits: Seq<u8>) -> nat
    decreases digits.len(),
{
    if digits.len() == 0 {
        0
    } else {
        decimal_value(digits.drop_last()) * 10 + digits.last() as nat
    }
}

/// Whether every byte of `digits` is a digit.
pub open spec fn all_digits(digits: Seq<u8>) -> bool {
    forall|i: int| 0 <= i < digits.len() ==> digits[i] <= 9
}

/// Whether `index` is the place of the first byte of `digits` that is no
/// digit.
pub open spec fn is_first_non_digit(digits: Seq<u8>, index: int) -> bool {
    &&& 0 <= index < digits.len()
    &&& digits[index] > 9
    &&& forall|j: int| 0 <= j < index ==> digits[j] <= 9
}

/// The place of the first byte of `digits` that is no digit.
pub open spec fn first_non_digit(digits: Seq<u8>) -> int
    recommends
        !all_digits(digits),
{
    choose|index: int| is_first_non_digit(digits, index)
}

/// The ten digit values, as the alphabet of a digit position.
pub open spec fn digit_alphabet() -> Seq<u8> {
    seq![0u8, 1u8, 2u8, 3u8, 4u8, 5u8, 6u8, 7u8, 8u8, 9u8]
}

/// The digits of a number are digits.
pub proof fn lemma_decimal_digits_are_digits(n: nat)
    ensures
        all_digits(decimal_digits(n)),
    decreases n,
{
    if n != 0 {
        lemma_decimal_digits_are_digits(n / 10);
    }
}

/// Reading the digits of a number gives the number back.
pub proof fn lemma_decimal_value_of_digits(n: nat)
    ensures
        decimal_value(decimal_digits(n)) == n,
    decreases n,
{
    if n != 0 {
        lemma_decimal_value_of_digits(n / 10);
        assert(decimal_digits(n).drop_last() =~= decimal_digits(n / 10));
    }
}

/// A longer run of digits spells no smaller number than its start.
pub proof fn lemma_decimal_value_grows(digits: Seq<u8>, shorter: int)
    requires
        0 <= shorter <= digits.len(),
    ensures
        decimal_value(digits.take(shorter)) <= decimal_value(digits),
    decreases digits.len() - shorter,
{
    if shorter < digits.len() {
        assert(digits.take(shorter + 1).drop_last() =~= digits.take(shorter));
        lemma_decimal_value_grows(digits, shorter + 1);
    } else {
        assert(digits.take(shorter) =~= digits);
    }
}

/// The ten digit values.
pub(crate) fn digit_bytes() -> (alphabet: Vec<u8>)
    ensures
        alphabet@ == digit_alphabet(),
{
    let alphabet: Vec<u8> = vec![0, 1, 2, 3, 4, 5, 6, 7, 8, 9];
    assert(alphabet@ =~= digit_alphabet());
    alphabet
}

/// The decimal digits of `number`.
pub(crate) fn digits_of(number: u64) -> (digits: Vec<u8>)
    ensures
        digits@ == decimal_digits(number as nat),
{
    let mut rest: u64 = number;
    let mut digits: Vec<u8> = Vec::new();
    while rest != 0
        invariant
            decimal_digits(number as nat) == decimal_digits(rest as nat) + digits@,
        decreases rest,
    {
        let digit: u8 = (rest % 10) as u8;
        let ghost before = digits@;
        digits.insert(0, digit);
        proof {
            assert(decimal_digits(rest as nat) == decimal_digits((rest / 10) as nat).push(digit));
            assert(decimal_digits((rest / 10) as nat).push(digit) + before =~= decimal_digits(
                (rest / 10) as nat,
            ) + digits@);
        }
        rest = rest / 10;
    }
    assert(decimal_digits(0) + digits@ =~= digits@);
    digits
}

/// The index of the first byte of `digits` that is no digit, if there is
/// one.
pub(crate) fn find_non_digit(digits: &Vec<u8>) -> (found: Option<usize>)
    ensures
        match found {
            Some(index) => index < digits.len() && !all_digits(digits@) && first_non_digit(
                digits@,
            ) == index,
            None => all_digits(digits@),
        },
{
    let mut i: usize = 0;
    while i < digits.len()
        invariant
            i <= digits.len(),
            forall|j: int| 0 <= j < i ==> digits@[j] <= 9,
        decreases digits.len() - i,
    {
        if digits[i] > 9 {
            assert(is_first_non_digit(digits@, i as int));
            return Some(i);
        }
        i += 1;
    }
    None
}

/// The number that `digits` spell, unless it is greater than `limit`.
pub(crate) fn magnitude_of(digits: &Vec<u8>, limit: u64) -> (spelled: Option<u64>)
    requires
        all_digits(digits@),
    ensures
        match spelled {
            Some(m) => m == decimal_value(digits@) && m <= limit,
            None => decimal_value(digits@) > limit,
        },
{
    let mut acc: u64 = 0;
    let mut i: usize = 0;
    while i < digits.len()
        invariant
            i <= digits.len(),
            all_digits(digits@),
            acc == decimal_value(digits@.take(i as int)),
            acc <= limit,
        decreases digits.len() - i,
    {
        let digit: u64 = digits[i] as u64;
        proof {
            assert(digits@.take(i + 1).drop_last() =~= digits@.take(i as int));
            assert(decimal_value(digits@.take(i + 1)) == acc * 10 + digit);
        }
        if acc > limit / 10 || (acc == limit / 10 && digit > limit % 10) {
            proof {
                lemma_decimal_value_grows(digits@, i + 1);
            }
            return None;
        }
        acc = acc * 10 + digit;
        i += 1;
    }
    assert(digits@.take(i as int) =~= digits@);
    Some(acc)
}

} // verus!
