//! Numbers written out in decimal and in hexadecimal.

use vstd::prelude::*;
use vstd::string::*;

verus! {

/// The sixteen digits, in the order of their values.
pub open spec fn numerals() -> Seq<char> {
    seq!['0', '1', '2', '3', '4', '5', '6', '7', '8', '9', 'a', 'b', 'c', 'd', 'e', 'f']
}

/// The number `n` in decimal, without leading zeros.
pub open spec fn decimal_spec(n: nat) -> Seq<char>
    decreases n,
{
    if n < 10 {
        seq![numerals()[n as int]]
    } else {
        decimal_spec(n / 10).push(numerals()[(n % 10) as int])
    }
}

/// The number `n` in hexadecimal, in lower case, without leading zeros.
pub open spec fn hex_spec(n: nat) -> Seq<char>
    decreases n,
{
    if n < 16 {
        seq![numerals()[n as int]]
    } else {
        hex_spec(n / 16).push(numerals()[(n % 16) as int])
    }
}

/// The bytes written as two hexadecimal digits each.
pub open spec fn hex_pairs(bytes: Seq<u8>) -> Seq<char>
    decreases bytes.len(),
{
    if bytes.len() == 0 {
        Seq::empty()
    } else {
        hex_pairs(bytes.drop_last()).push(numerals()[(bytes.last() / 16) as int]).push(
            numerals()[(bytes.last() % 16) as int],
        )
    }
}

/// The digit with the value `d`, as a string of one character.
fn digit_str(d: u32) -> (digit: &'static str)
    requires
        d < 16,
    ensures
        digit@ == seq![numerals()[d as int]],
{
    proof {
        reveal_strlit("0");
        reveal_strlit("1");
        reveal_strlit("2");
        reveal_strlit("3");
        reveal_strlit("4");
        reveal_strlit("5");
        reveal_strlit("6");
        reveal_strlit("7");
        reveal_strlit("8");
        reveal_strlit("9");
        reveal_strlit("a");
        reveal_strlit("b");
        reveal_strlit("c");
        reveal_strlit("d");
        reveal_strlit("e");
        reveal_strlit("f");
    }
    let digit = match d {
        0 => "0",
        1 => "1",
        2 => "2",
        3 => "3",
        4 => "4",
        5 => "5",
        6 => "6",
        7 => "7",
        8 => "8",
        9 => "9",
        10 => "a",
        11 => "b",
        12 => "c",
        13 => "d",
        14 => "e",
        _ => "f",
    };
    assert(digit@ =~= seq![numerals()[d as int]]);
    digit
}

/// Writes `n` in decimal at the end of `out`.
fn write_decimal(n: u64, out: &mut String)
    ensures
        final(out)@ == old(out)@ + decimal_spec(n as nat),
    decreases n,
{
    if n >= 10 {
        write_decimal(n / 10, out);
    }
    out.append(digit_str((n % 10) as u32));
    assert(out@ =~= old(out)@ + decimal_spec(n as nat));
}

/// Writes `n` in hexadecimal at the end of `out`.
fn write_hex(n: u32, out: &mut String)
    ensures
        final(out)@ == old(out)@ + hex_spec(n as nat),
    decreases n,
{
    if n >= 16 {
        write_hex(n / 16, out);
    }
    out.append(digit_str(n % 16));
    assert(out@ =~= old(out)@ + hex_spec(n as nat));
}

/// `n` in decimal.
pub fn decimal(n: u64) -> (text: String)
    ensures
        text@ == decimal_spec(n as nat),
{
    let mut text = String::new();
    write_decimal(n, &mut text);
    assert(text@ =~= decimal_spec(n as nat));
    text
}

/// `n` in hexadecimal, in lower case.
pub fn hex(n: u32) -> (text: String)
    ensures
        text@ == hex_spec(n as nat),
{
    let mut text = String::new();
    write_hex(n, &mut text);
    assert(text@ =~= hex_spec(n as nat));
    text
}

/// The bytes in hexadecimal, two digits in lower case for each.
pub fn hex_bytes(bytes: &[u8]) -> (text: String)
    ensures
        text@ == hex_pairs(bytes@),
{
    let mut text = String::new();
    let mut at: usize = 0;
    proof {
        assert(bytes@.take(0) =~= Seq::<u8>::empty());
        assert(text@ =~= hex_pairs(bytes@.take(0)));
    }
    while at < bytes.len()
        invariant
            at <= bytes@.len(),
            text@ == hex_pairs(bytes@.take(at as int)),
        decreases bytes@.len() - at,
    {
        let byte = bytes[at];
        let ghost before = text@;
        proof {
            assert(bytes@.take(at + 1).drop_last() =~= bytes@.take(at as int));
            assert(bytes@.take(at + 1).last() == byte);
        }
        text.append(digit_str((byte / 16) as u32));
        text.append(digit_str((byte % 16) as u32));
        assert(text@ =~= before.push(numerals()[(byte / 16) as int]).push(
            numerals()[(byte % 16) as int],
        ));
        at = at + 1;
    }
    proof {
        assert(bytes@.take(at as int) =~= bytes@);
    }
    text
}

/// The place of each digit among the digits.
pub proof fn lemma_numerals(d: int)
    requires
        0 <= d < 16,
    ensures
        numerals().len() == 16,
        forall|e: int| 0 <= e < 16 && numerals()[e] == numerals()[d] ==> e == d,
{
    let s = numerals();
    assert(s[0] == '0' && s[1] == '1' && s[2] == '2' && s[3] == '3');
    assert(s[4] == '4' && s[5] == '5' && s[6] == '6' && s[7] == '7');
    assert(s[8] == '8' && s[9] == '9' && s[10] == 'a' && s[11] == 'b');
    assert(s[12] == 'c' && s[13] == 'd' && s[14] == 'e' && s[15] == 'f');
}

/// Different numbers are written differently.
pub proof fn lemma_decimal_distinct(a: nat, b: nat)
    requires
        decimal_spec(a) == decimal_spec(b),
    ensures
        a == b,
    decreases a,
{
    let x = decimal_spec(a);
    let y = decimal_spec(b);
    lemma_decimal_len(a);
    lemma_decimal_len(b);
    lemma_numerals((a % 10) as int);
    if a < 10 && b < 10 {
        assert(x[0] == numerals()[a as int]);
        assert(y[0] == numerals()[b as int]);
    } else if a >= 10 && b >= 10 {
        assert(x.last() == numerals()[(a % 10) as int]);
        assert(y.last() == numerals()[(b % 10) as int]);
        assert(x.drop_last() =~= decimal_spec(a / 10));
        assert(y.drop_last() =~= decimal_spec(b / 10));
        lemma_decimal_distinct(a / 10, b / 10);
    }
}

/// A number below ten is written with one digit, every other with more.
pub proof fn lemma_decimal_len(n: nat)
    ensures
        n < 10 ==> decimal_spec(n).len() == 1,
        n >= 10 ==> decimal_spec(n).len() >= 2,
    decreases n,
{
    if n >= 10 {
        lemma_decimal_len(n / 10);
    }
}

} // verus!
