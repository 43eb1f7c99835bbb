//! Hexadecimal text: the lowercase rendering of a byte string and the
//! reading of a run of digits as a number.

use crate::wire::be_value;
use vstd::prelude::*;

verus! {

/// ASCII code of the lowercase digit that stands for a value below 16.
pub open spec fn hex_digit(nibble: int) -> u8 {
    if nibble < 10 {
        (48 + nibble) as u8
    } else {
        (87 + nibble) as u8
    }
}

/// The lowercase hexadecimal text of `bytes`: two digits for each byte, the
/// high half first.
pub open spec fn hex_encode(bytes: Seq<u8>) -> Seq<u8> {
    Seq::new(
        2 * bytes.len(),
        |i: int|
            if i % 2 == 0 {
                hex_digit(bytes[i / 2] as int / 16)
            } else {
                hex_digit(bytes[i / 2] as int % 16)
            },
    )
}

/// Whether `c` is the ASCII code of a hexadecimal digit of either case.
pub open spec fn is_hex_digit(c: u8) -> bool {
    (48 <= c <= 57) || (65 <= c <= 70) || (97 <= c <= 102)
}

/// The value of a hexadecimal digit.
pub open spec fn hex_digit_value(c: u8) -> nat
    recommends
        is_hex_digit(c),
{
    if c <= 57 {
        (c - 48) as nat
    } else if c <= 70 {
        (c - 55) as nat
    } else {
        (c - 87) as nat
    }
}

/// Whether every element of `digits` is a hexadecimal digit.
pub open spec fn all_hex_digits(digits: Seq<u8>) -> bool {
    forall|i: int| 0 <= i < digits.len() ==> is_hex_digit(#[trigger] digits[i])
}

/// The number that `digits` writes in base 16, most significant digit first.
pub open spec fn hex_number(digits: Seq<u8>) -> nat
    decreases digits.len(),
{
    if digits.len() == 0 {
        0
    } else {
        16 * hex_number(digits.drop_last()) + hex_digit_value(digits.last())
    }
}

/// The first number that `n` hexadecimal digits cannot write: 16 to the `n`.
pub open spec fn hex_limit(n: nat) -> nat
    decreases n,
{
    if n == 0 {
        1
    } else {
        16 * hex_limit((n - 1) as nat)
    }
}

/// A run of `n` digits writes a number below 16 to the `n`.
pub proof fn lemma_hex_number_bound(digits: Seq<u8>)
    requires
        all_hex_digits(digits),
    ensures
        hex_number(digits) < hex_limit(digits.len()),
    decreases digits.len(),
{
    if digits.len() > 0 {
        let front = digits.drop_last();
        assert forall|i: int| 0 <= i < front.len() implies is_hex_digit(#[trigger] front[i]) by {
            assert(front[i] == digits[i]);
        }
        lemma_hex_number_bound(front);
        assert(is_hex_digit(digits[digits.len() - 1]));
    }
}

/// Sixteen digits are what a 64-bit word holds.
pub proof fn lemma_hex_limit_values()
    ensures
        hex_limit(15) == 0x1000_0000_0000_0000,
        hex_limit(16) == 0x1_0000_0000_0000_0000,
        forall|i: nat, j: nat| i <= j ==> hex_limit(i) <= hex_limit(j),
{
    reveal_with_fuel(hex_limit, 17);
    assert forall|i: nat, j: nat| i <= j implies hex_limit(i) <= hex_limit(j) by {
        lemma_hex_limit_grows(i, j);
    }
}

proof fn lemma_hex_limit_grows(i: nat, j: nat)
    requires
        i <= j,
    ensures
        1 <= hex_limit(i) <= hex_limit(j),
    decreases j,
{
    if i < j {
        lemma_hex_limit_grows(i, (j - 1) as nat);
    } else if i > 0 {
        lemma_hex_limit_grows((i - 1) as nat, (j - 1) as nat);
    }
}

/// The text that `hex_encode` gives holds hexadecimal digits only.
pub proof fn lemma_hex_encode_digits(bytes: Seq<u8>)
    ensures
        hex_encode(bytes).len() == 2 * bytes.len(),
        all_hex_digits(hex_encode(bytes)),
{
    let text = hex_encode(bytes);
    assert forall|i: int| 0 <= i < text.len() implies is_hex_digit(#[trigger] text[i]) by {
        let b = bytes[i / 2];
        assert(0 <= b as int / 16 < 16);
        assert(0 <= b as int % 16 < 16);
    }
}

/// The text of a byte string, read as one number, is the number that the
/// bytes write high byte first.
pub proof fn lemma_hex_number_of_text(bytes: Seq<u8>)
    ensures
        hex_number(hex_encode(bytes)) == be_value(bytes),
    decreases bytes.len(),
{
    let text = hex_encode(bytes);
    if bytes.len() > 0 {
        let front = bytes.drop_last();
        let x = bytes.last();
        let shorter = text.drop_last();
        lemma_hex_number_of_text(front);
        assert forall|i: int| 0 <= i < 2 * front.len() implies hex_encode(front)[i] == text[i] by {
            assert(front[i / 2] == bytes[i / 2]);
        }
        assert(shorter.drop_last() =~= hex_encode(front));
        assert(text.last() == hex_digit(x as int % 16));
        assert(shorter.last() == hex_digit(x as int / 16));
        assert(0 <= x as int / 16 < 16);
        assert(0 <= x as int % 16 < 16);
        assert(hex_number(text) == 16 * hex_number(shorter) + hex_digit_value(text.last()));
        assert(hex_number(shorter) == 16 * hex_number(shorter.drop_last()) + hex_digit_value(
            shorter.last(),
        ));
    }
}

fn digit_of(nibble: u8) -> (c: u8)
    requires
        nibble < 16,
    ensures
        c == hex_digit(nibble as int),
{
    if nibble < 10 {
        48 + nibble
    } else {
        87 + nibble
    }
}

fn value_of(c: u8) -> (v: Option<u8>)
    ensures
        v is Some <==> is_hex_digit(c),
        v matches Some(d) ==> d == hex_digit_value(c) && d < 16,
{
    if 48 <= c && c <= 57 {
        Some(c - 48)
    } else if 65 <= c && c <= 70 {
        Some(c - 55)
    } else if 97 <= c && c <= 102 {
        Some(c - 87)
    } else {
        None
    }
}

/// Writes `bytes` as lowercase hexadecimal text.
pub fn encode_hex(bytes: &[u8]) -> (text: Vec<u8>)
    ensures
        text@ == hex_encode(bytes@),
{
    let mut text: Vec<u8> = Vec::new();
    let mut i: usize = 0;
    while i < bytes.len()
        invariant
            0 <= i <= bytes@.len(),
            text@ == hex_encode(bytes@.take(i as int)),
        decreases bytes@.len() - i,
    {
        let b: u8 = bytes[i];
        let ghost before = text@;
        text.push(digit_of(b / 16));
        text.push(digit_of(b % 16));
        proof {
            let shorter = bytes@.take(i as int);
            let longer = bytes@.take(i + 1);
            assert forall|j: int| 0 <= j < 2 * (i + 1) implies text@[j] == hex_encode(longer)[j] by {
                if j < 2 * i {
                    assert(shorter[j / 2] == longer[j / 2]);
                    assert(before[j] == hex_encode(shorter)[j]);
                } else {
                    assert(longer[j / 2] == b);
                }
            }
            assert(text@ =~= hex_encode(longer));
        }
        i = i + 1;
    }
    assert(bytes@.take(i as int) =~= bytes@);
    text
}

/// Reads one to sixteen hexadecimal digits as a number; `None` for any other
/// input.
pub fn parse_hex(digits: &[u8]) -> (value: Option<u64>)
    ensures
        value is Some <==> 1 <= digits@.len() <= 16 && all_hex_digits(digits@),
        value matches Some(v) ==> v == hex_number(digits@),
{
    if digits.len() == 0 || digits.len() > 16 {
        return None;
    }
    let mut acc: u64 = 0;
    let mut i: usize = 0;
    while i < digits.len()
        invariant
            0 <= i <= digits@.len() <= 16,
            all_hex_digits(digits@.take(i as int)),
            acc == hex_number(digits@.take(i as int)),
        decreases digits@.len() - i,
    {
        let c: u8 = digits[i];
        match value_of(c) {
            None => {
                assert(!is_hex_digit(digits@[i as int]));
                return None;
            },
            Some(d) => {
                proof {
                    let shorter = digits@.take(i as int);
                    let longer = digits@.take(i + 1);
                    lemma_hex_number_bound(shorter);
                    lemma_hex_limit_values();
                    assert(hex_limit(i as nat) <= hex_limit(15));
                    assert(longer.drop_last() =~= shorter);
                    assert(longer.last() == c);
                    assert forall|j: int| 0 <= j < longer.len() implies is_hex_digit(
                        #[trigger] longer[j],
                    ) by {
                        if j < i {
                            assert(longer[j] == shorter[j]);
                        }
                    }
                }
                acc = acc * 16 + d as u64;
            },
        }
        i = i + 1;
    }
    assert(digits@.take(i as int) =~= digits@);
    Some(acc)
}

} // verus!
