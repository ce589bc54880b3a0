//! Decimal and hexadecimal text.

use vstd::prelude::*;
use vstd::string::*;

verus! {

/// The character of a hexadecimal digit, lower case.
pub open spec fn digit_char(digit: int) -> char {
    if digit == 0 {
        '0'
    } else if digit == 1 {
        '1'
    } else if digit == 2 {
        '2'
    } else if digit == 3 {
        '3'
    } else if digit == 4 {
        '4'
    } else if digit == 5 {
        '5'
    } else if digit == 6 {
        '6'
    } else if digit == 7 {
        '7'
    } else if digit == 8 {
        '8'
    } else if digit == 9 {
        '9'
    } else if digit == 10 {
        'a'
    } else if digit == 11 {
        'b'
    } else if digit == 12 {
        'c'
    } else if digit == 13 {
        'd'
    } else if digit == 14 {
        'e'
    } else {
        'f'
    }
}

/// The decimal numeral of `value`, without leading zeros.
pub open spec fn decimal_text(value: nat) -> Seq<char>
    decreases value,
{
    if value < 10 {
        seq![digit_char(value as int)]
    } else {
        decimal_text(value / 10).push(digit_char((value % 10) as int))
    }
}

/// Two hexadecimal digits for each byte, high digit first.
pub open spec fn hex_text(bytes: Seq<u8>) -> Seq<char> {
    Seq::new(
        2 * bytes.len(),
        |i: int|
            if i % 2 == 0 {
                digit_char(bytes[i / 2] as int / 16)
            } else {
                digit_char(bytes[i / 2] as int % 16)
            },
    )
}

fn digit(value: u8) -> (text: &'static str)
    requires
        value < 16,
    ensures
        text@ == seq![digit_char(value as int)],
{
    proof {
        reveal_strlit("0");
        reveal_strlit("1");
        reveal_strlit("2");
        reveal_strlit("3");
        reveal_strlit("4");
        reveal_strlit("5");
        reveal_strlit("6");
        reveal_strlit("7");
        reveal_strlit("8");
        reveal_strlit("9");
        reveal_strlit("a");
        reveal_strlit("b");
        reveal_strlit("c");
        reveal_strlit("d");
        reveal_strlit("e");
        reveal_strlit("f");
    }
    match value {
        0 => "0",
        1 => "1",
        2 => "2",
        3 => "3",
        4 => "4",
        5 => "5",
        6 => "6",
        7 => "7",
        8 => "8",
        9 => "9",
        10 => "a",
        11 => "b",
        12 => "c",
        13 => "d",
        14 => "e",
        _ => "f",
    }
}

/// The decimal numeral of `value`.
pub fn decimal(value: u64) -> (text: String)
    ensures
        text@ == decimal_text(value as nat),
    decreases value,
{
    if value < 10 {
        digit(value as u8).to_owned()
    } else {
        let head = decimal(value / 10);
        let tail = digit((value % 10) as u8);
        let text = head.concat(tail);
        assert(text@ =~= decimal_text((value / 10) as nat).push(
            digit_char((value % 10) as int),
        ));
        text
    }
}

/// Two hexadecimal digits for each byte.
pub fn hex_digest(bytes: &[u8]) -> (text: String)
    ensures
        text@ == hex_text(bytes@),
{
    let mut text = String::new();
    let mut i: usize = 0;
    while i < bytes.len()
        invariant
            i <= bytes@.len(),
            text@ == hex_text(bytes@.take(i as int)),
        decreases bytes.len() - i,
    {
        let byte: u8 = bytes[i];
        let ghost before = text@;
        text.append(digit(byte / 16));
        text.append(digit(byte % 16));
        i = i + 1;
        assert(text@ =~= hex_text(bytes@.take(i as int)));
    }
    assert(bytes@.take(i as int) =~= bytes@);
    text
}

/// What a digit stands for, by its code.
pub open spec fn digit_value(digit: char) -> int {
    if digit as int <= 57 {
        digit as int - 48
    } else {
        digit as int - 87
    }
}

/// What digits stand for in base ten, the first for the most.
pub open spec fn read_decimal(digits: Seq<char>) -> int
    decreases digits.len(),
{
    if digits.len() == 0 {
        0
    } else {
        10 * read_decimal(digits.drop_last()) + digit_value(digits.last())
    }
}

/// The text of a number reads as the number: decimal digits, the first no zero but for zero
/// itself.
pub proof fn lemma_decimal_reads_back(value: nat)
    ensures
        read_decimal(decimal_text(value)) == value,
        decimal_text(value).len() > 0,
        forall|i: int|
            0 <= i < decimal_text(value).len() ==> 48 <= (#[trigger] decimal_text(value)[i]) as int
                <= 57,
        value > 0 ==> decimal_text(value)[0] as int != 48,
    decreases value,
{
    let text = decimal_text(value);
    if value < 10 {
        assert(text.drop_last() =~= Seq::<char>::empty());
        assert(read_decimal(text.drop_last()) == 0);
        assert(digit_value(text.last()) == value);
    } else {
        lemma_decimal_reads_back(value / 10);
        assert(text.drop_last() =~= decimal_text(value / 10));
        assert(digit_value(text.last()) == value % 10);
        assert(text[0] == decimal_text(value / 10)[0]);
    }
}

/// The hexadecimal text of bytes gives each byte back from its two digits, in lower case.
pub proof fn lemma_hex_reads_back(bytes: Seq<u8>, i: int)
    requires
        0 <= i < bytes.len(),
    ensures
        hex_text(bytes).len() == 2 * bytes.len(),
        16 * digit_value(hex_text(bytes)[2 * i]) + digit_value(hex_text(bytes)[2 * i + 1])
            == bytes[i],
        0 <= digit_value(hex_text(bytes)[2 * i]) < 16,
        0 <= digit_value(hex_text(bytes)[2 * i + 1]) < 16,
{
    let high = bytes[i] as int / 16;
    let low = bytes[i] as int % 16;
    assert((2 * i) / 2 == i && (2 * i) % 2 == 0);
    assert((2 * i + 1) / 2 == i && (2 * i + 1) % 2 == 1);
    assert(digit_value(digit_char(high)) == high);
    assert(digit_value(digit_char(low)) == low);
}

} // verus!
