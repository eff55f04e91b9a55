//! The tokens that stand for protected terms while a text is with the backend.
//!
//! A token is `ZM`, then the digits of a slot index in base 20 with the least
//! significant digit first, then `Z`. The digits are twenty consonants, chosen
//! because machine translation leaves such a token alone. Tokens are written
//! in upper case and recognised in either case.

use vstd::prelude::*;
use vstd::slice::*;
use vstd::string::*;
use vstd::utf8::*;

verus! {

/// The digits of a token, in the order of their values.
pub open spec fn usable() -> Seq<char> {
    seq![
        'B', 'C', 'D', 'F', 'G', 'H', 'J', 'K', 'L', 'M',
        'N', 'P', 'Q', 'R', 'S', 'T', 'V', 'W', 'X', 'Y',
    ]
}

/// The digits of `index`, least significant first; at least one digit.
pub open spec fn digits(index: nat) -> Seq<char>
    decreases index,
{
    if index < 20 {
        seq![usable()[index as int]]
    } else {
        seq![usable()[(index % 20) as int]] + digits(index / 20)
    }
}

/// The token for the slot `index`.
pub open spec fn placeholder(index: nat) -> Seq<char> {
    seq!['Z', 'M'] + digits(index) + seq!['Z']
}

/// An ASCII letter in upper case; any other byte unchanged.
pub open spec fn upper(b: u8) -> u8 {
    if 0x61 <= b <= 0x7a {
        (b - 0x20) as u8
    } else {
        b
    }
}

/// The value of a digit, written in either case; `None` for any other byte.
pub open spec fn digit_value(b: u8) -> Option<nat> {
    let u = upper(b);
    if 0x42 <= u <= 0x44 {
        Some((u - 0x42) as nat)
    } else if 0x46 <= u <= 0x48 {
        Some((u - 0x43) as nat)
    } else if 0x4a <= u <= 0x4e {
        Some((u - 0x44) as nat)
    } else if 0x50 <= u <= 0x54 {
        Some((u - 0x45) as nat)
    } else if 0x56 <= u <= 0x59 {
        Some((u - 0x46) as nat)
    } else {
        None
    }
}

/// The byte is `Z` or `z`.
pub open spec fn is_z(b: u8) -> bool {
    upper(b) == 0x5a
}

/// The byte is `M` or `m`.
pub open spec fn is_m(b: u8) -> bool {
    upper(b) == 0x4d
}

/// The number that a run of digits stands for, least significant digit first.
pub open spec fn digits_value(run: Seq<u8>) -> nat
    decreases run.len(),
{
    if run.len() == 0 {
        0
    } else {
        match digit_value(run[0]) {
            Some(d) => d + 20 * digits_value(run.drop_first()),
            None => 20 * digits_value(run.drop_first()),
        }
    }
}

/// Where the longest run of digits that starts at `at` ends.
pub open spec fn run_end(bytes: Seq<u8>, at: int) -> int
    decreases bytes.len() - at,
{
    if 0 <= at < bytes.len() && digit_value(bytes[at]) is Some {
        run_end(bytes, at + 1)
    } else {
        at
    }
}

/// Where the token that starts at `at` ends, if one starts there.
pub open spec fn token_end(bytes: Seq<u8>, at: int) -> Option<int> {
    let end = run_end(bytes, at + 2);
    if 0 <= at && at + 2 < end < bytes.len() && is_z(bytes[at]) && is_m(bytes[at + 1]) && is_z(
        bytes[end],
    ) {
        Some(end + 1)
    } else {
        None
    }
}

/// The slot index that the token from `from` up to `to` names.
pub open spec fn token_index(bytes: Seq<u8>, from: int, to: int) -> nat {
    digits_value(bytes.subrange(from + 2, to - 1))
}

/// The first token that starts at `from` or later: where it starts and ends.
pub open spec fn next_token(bytes: Seq<u8>, from: int) -> Option<(int, int)>
    decreases bytes.len() - from,
{
    if from < 0 || from >= bytes.len() {
        None
    } else {
        match token_end(bytes, from) {
            Some(end) => Some((from, end)),
            None => next_token(bytes, from + 1),
        }
    }
}

/// The slot index that `bytes` names, if `bytes` is exactly one token.
pub open spec fn index_of_token(bytes: Seq<u8>) -> Option<nat> {
    if token_end(bytes, 0) == Some(bytes.len() as int) {
        Some(token_index(bytes, 0, bytes.len() as int))
    } else {
        None
    }
}

/// Every digit has its place in the alphabet as its value, and nothing else
/// has a value.
pub proof fn lemma_digit_value(b: u8)
    ensures
        digit_value(b) matches Some(d) ==> d < 20 && upper(b) == usable()[d as int] as u8,
        digit_value(b) is None ==> forall|d: int| 0 <= d < 20 ==> upper(b) != usable()[d] as u8,
        b < 0x80 || digit_value(b) is None,
{
    let u = upper(b);
    assert(usable().len() == 20);
    if digit_value(b) is None {
        assert forall|d: int| 0 <= d < 20 implies u != usable()[d] as u8 by {
            lemma_usable(d);
        }
    } else {
        lemma_usable(digit_value(b).unwrap() as int);
    }
}

/// The place of each digit in the alphabet.
pub proof fn lemma_usable(d: int)
    requires
        0 <= d < 20,
    ensures
        digit_value(usable()[d] as u8) == Some(d as nat),
        upper(usable()[d] as u8) == usable()[d] as u8,
        0x42 <= usable()[d] as u8 <= 0x59,
        'B' <= usable()[d] <= 'Y',
        !is_z(usable()[d] as u8),
{
    let s = usable();
    assert(s[0] == 'B' && s[1] == 'C' && s[2] == 'D' && s[3] == 'F' && s[4] == 'G');
    assert(s[5] == 'H' && s[6] == 'J' && s[7] == 'K' && s[8] == 'L' && s[9] == 'M');
    assert(s[10] == 'N' && s[11] == 'P' && s[12] == 'Q' && s[13] == 'R' && s[14] == 'S');
    assert(s[15] == 'T' && s[16] == 'V' && s[17] == 'W' && s[18] == 'X' && s[19] == 'Y');
}

/// The digit with the value `d`, as a string of one character.
fn digit_str(d: usize) -> (digit: &'static str)
    requires
        d < 20,
    ensures
        digit@ == seq![usable()[d as int]],
{
    proof {
        reveal_strlit("B");
        reveal_strlit("C");
        reveal_strlit("D");
        reveal_strlit("F");
        reveal_strlit("G");
        reveal_strlit("H");
        reveal_strlit("J");
        reveal_strlit("K");
        reveal_strlit("L");
        reveal_strlit("M");
        reveal_strlit("N");
        reveal_strlit("P");
        reveal_strlit("Q");
        reveal_strlit("R");
        reveal_strlit("S");
        reveal_strlit("T");
        reveal_strlit("V");
        reveal_strlit("W");
        reveal_strlit("X");
        reveal_strlit("Y");
    }
    let digit = match d {
        0 => "B",
        1 => "C",
        2 => "D",
        3 => "F",
        4 => "G",
        5 => "H",
        6 => "J",
        7 => "K",
        8 => "L",
        9 => "M",
        10 => "N",
        11 => "P",
        12 => "Q",
        13 => "R",
        14 => "S",
        15 => "T",
        16 => "V",
        17 => "W",
        18 => "X",
        _ => "Y",
    };
    assert(digit@ =~= seq![usable()[d as int]]);
    digit
}

/// Writes the token for the slot `index`.
pub fn encode_replacement_string(index: usize) -> (token: String)
    ensures
        token@ == placeholder(index as nat),
{
    let mut token = String::from_str("ZM");
    let mut rest: usize = index;
    proof {
        reveal_strlit("ZM");
        reveal_strlit("Z");
        assert(token@ =~= seq!['Z', 'M']);
    }
    loop
        invariant_except_break
            token@ + digits(rest as nat) == seq!['Z', 'M'] + digits(index as nat),
        ensures
            token@ == seq!['Z', 'M'] + digits(index as nat),
        decreases rest,
    {
        let ghost before = token@;
        token.append(digit_str(rest % 20));
        if rest < 20 {
            assert(before + digits(rest as nat) =~= token@);
            break ;
        }
        assert(before + digits(rest as nat) =~= token@ + digits((rest / 20) as nat));
        rest = rest / 20;
    }
    token.append("Z");
    assert("Z"@ =~= seq!['Z']);
    token
}

/// The value of a digit written in either case.
fn digit_of(b: u8) -> (value: Option<usize>)
    ensures
        value matches Some(d) ==> digit_value(b) == Some(d as nat),
        value is None ==> digit_value(b) is None,
{
    let u: u8 = if 0x61 <= b && b <= 0x7a {
        b - 0x20
    } else {
        b
    };
    if 0x42 <= u && u <= 0x44 {
        Some((u - 0x42) as usize)
    } else if 0x46 <= u && u <= 0x48 {
        Some((u - 0x43) as usize)
    } else if 0x4a <= u && u <= 0x4e {
        Some((u - 0x44) as usize)
    } else if 0x50 <= u && u <= 0x54 {
        Some((u - 0x45) as usize)
    } else if 0x56 <= u && u <= 0x59 {
        Some((u - 0x46) as usize)
    } else {
        None
    }
}

/// Whether the byte is `Z` or `z`.
fn byte_is_z(b: u8) -> (yes: bool)
    ensures
        yes == is_z(b),
{
    b == 0x5a || b == 0x7a
}

/// Whether the byte is `M` or `m`.
fn byte_is_m(b: u8) -> (yes: bool)
    ensures
        yes == is_m(b),
{
    b == 0x4d || b == 0x6d
}

/// Where the longest run of digits that starts at `at` ends.
fn end_of_run(bytes: &[u8], at: usize) -> (end: usize)
    requires
        at <= bytes@.len(),
    ensures
        end == run_end(bytes@, at as int),
        at <= end <= bytes@.len(),
{
    let mut end: usize = at;
    while end < bytes.len() && digit_of(bytes[end]).is_some()
        invariant
            at <= end <= bytes@.len(),
            run_end(bytes@, end as int) == run_end(bytes@, at as int),
        decreases bytes@.len() - end,
    {
        end = end + 1;
    }
    end
}

/// Where the token that starts at `at` ends, if one starts there.
pub fn end_of_token(bytes: &[u8], at: usize) -> (end: Option<usize>)
    requires
        at < bytes@.len(),
    ensures
        end matches Some(e) ==> token_end(bytes@, at as int) == Some(e as int) && at + 4 <= e
            <= bytes@.len(),
        end is None ==> token_end(bytes@, at as int) is None,
{
    let len = bytes.len();
    if len - at < 4 || !byte_is_z(bytes[at]) || !byte_is_m(bytes[at + 1]) {
        proof {
            lemma_run_end_bounds(bytes@, at + 2);
        }
        return None;
    }
    let end = end_of_run(bytes, at + 2);
    if end > at + 2 && end < len && byte_is_z(bytes[end]) {
        Some(end + 1)
    } else {
        None
    }
}

/// A run of digits ends at or after its start, within the bytes.
pub proof fn lemma_run_end_bounds(bytes: Seq<u8>, at: int)
    ensures
        at <= bytes.len() ==> at <= run_end(bytes, at) <= bytes.len(),
        at > bytes.len() ==> run_end(bytes, at) == at,
    decreases bytes.len() - at,
{
    if 0 <= at < bytes.len() && digit_value(bytes[at]) is Some {
        lemma_run_end_bounds(bytes, at + 1);
    }
}

/// The first token that starts at `from` or later.
pub fn find_token(bytes: &[u8], from: usize) -> (found: Option<(usize, usize)>)
    ensures
        found matches Some((start, end)) ==> next_token(bytes@, from as int) == Some(
            (start as int, end as int),
        ) && from <= start && start + 4 <= end <= bytes@.len(),
        found is None ==> next_token(bytes@, from as int) is None,
{
    let mut at: usize = from;
    while at < bytes.len()
        invariant
            from <= at,
            next_token(bytes@, at as int) == next_token(bytes@, from as int),
        decreases bytes@.len() - at,
    {
        match end_of_token(bytes, at) {
            Some(end) => {
                return Some((at, end));
            },
            None => {
                at = at + 1;
            },
        }
    }
    None
}

/// A longer run of digits stands for at least as much as its tail.
proof fn lemma_digits_value_tail(run: Seq<u8>, from: int)
    requires
        0 <= from <= run.len(),
    ensures
        digits_value(run.subrange(from, run.len() as int)) <= digits_value(run),
    decreases from,
{
    if from == 0 {
        assert(run.subrange(0, run.len() as int) =~= run);
    } else {
        lemma_digits_value_tail(run, from - 1);
        let longer = run.subrange(from - 1, run.len() as int);
        assert(longer.drop_first() =~= run.subrange(from, run.len() as int));
    }
}

/// The number that the digits from `from` up to `to` stand for; `None` when
/// no `usize` holds it.
pub fn index_of_run(bytes: &[u8], from: usize, to: usize) -> (index: Option<usize>)
    requires
        from <= to <= bytes@.len(),
        to <= run_end(bytes@, from as int),
    ensures
        index == if digits_value(bytes@.subrange(from as int, to as int)) <= usize::MAX {
            Some(digits_value(bytes@.subrange(from as int, to as int)) as usize)
        } else {
            None
        },
{
    let ghost run = bytes@.subrange(from as int, to as int);
    let mut value: usize = 0;
    let mut at: usize = to;
    proof {
        assert(run.subrange(run.len() as int, run.len() as int) =~= Seq::<u8>::empty());
    }
    while at > from
        invariant
            from <= at <= to <= bytes@.len(),
            to <= run_end(bytes@, from as int),
            run == bytes@.subrange(from as int, to as int),
            value == digits_value(run.subrange(at - from, run.len() as int)),
        decreases at,
    {
        at = at - 1;
        proof {
            lemma_run_digits(bytes@, from as int, at as int);
        }
        let digit = match digit_of(bytes[at]) {
            Some(d) => d,
            None => 0,
        };
        let ghost longer = run.subrange(at - from, run.len() as int);
        proof {
            assert(longer.drop_first() =~= run.subrange(at - from + 1, run.len() as int));
            assert(longer[0] == bytes@[at as int]);
            lemma_digits_value_tail(run, at - from);
            lemma_digit_value(bytes@[at as int]);
            assert(digits_value(longer) == digit + 20 * value);
        }
        if value > (usize::MAX - digit) / 20 {
            assert(digits_value(longer) > usize::MAX);
            return None;
        }
        value = value * 20 + digit;
    }
    proof {
        assert(run.subrange(0, run.len() as int) =~= run);
    }
    Some(value)
}

/// The slot index that a token names.
///
/// `None` when `token` is not exactly one token, or names an index that no
/// `usize` holds.
pub fn decode_replace_string(token: &str) -> (index: Option<usize>)
    ensures
        index == match index_of_token(encode_utf8(token@)) {
            Some(i) if i <= usize::MAX => Some(i as usize),
            _ => None,
        },
{
    let bytes = token.as_bytes();
    let len = bytes.len();
    if len == 0 {
        return None;
    }
    match end_of_token(bytes, 0) {
        Some(end) if end == len => index_of_run(bytes, 2, len - 1),
        _ => None,
    }
}

/// Every byte before the end of a run of digits is a digit.
pub proof fn lemma_run_digits(bytes: Seq<u8>, from: int, at: int)
    requires
        0 <= from <= at < run_end(bytes, from),
    ensures
        at < bytes.len(),
        digit_value(bytes[at]) is Some,
        run_end(bytes, at) == run_end(bytes, from),
    decreases at - from,
{
    lemma_run_end_bounds(bytes, from);
    if from < at {
        if 0 <= from < bytes.len() && digit_value(bytes[from]) is Some {
            lemma_run_digits(bytes, from + 1, at);
        }
    }
}

/// The bytes of a text whose characters each occupy one byte.
pub open spec fn narrow(s: Seq<char>) -> Seq<u8> {
    Seq::new(s.len(), |j: int| s[j] as u8)
}

/// The digits written for an index are digits, and stand for that index.
pub proof fn lemma_digits(index: nat)
    ensures
        digits(index).len() >= 1,
        forall|j: int|
            0 <= j < digits(index).len() ==> digit_value(#[trigger] digits(index)[j] as u8)
                is Some && 'B' <= digits(index)[j] <= 'Y',
        digits_value(narrow(digits(index))) == index,
    decreases index,
{
    let d = (index % 20) as int;
    lemma_usable(d);
    if index < 20 {
        let run = narrow(digits(index));
        assert(run.drop_first() =~= Seq::<u8>::empty());
        assert(digits_value(run.drop_first()) == 0);
    } else {
        lemma_digits(index / 20);
        let run = narrow(digits(index));
        assert(run.drop_first() =~= narrow(digits(index / 20)));
        assert(run[0] == usable()[d] as u8);
    }
}

/// A stretch of digits that is followed by no digit is a longest run.
pub proof fn lemma_run_of_digits(bytes: Seq<u8>, from: int, to: int)
    requires
        0 <= from <= to <= bytes.len(),
        forall|j: int| from <= j < to ==> digit_value(#[trigger] bytes[j]) is Some,
        to == bytes.len() || digit_value(bytes[to]) is None,
    ensures
        run_end(bytes, from) == to,
    decreases to - from,
{
    if from < to {
        lemma_run_of_digits(bytes, from + 1, to);
    }
}

/// The bytes of a token are its characters, one byte each.
pub proof fn lemma_token_bytes(index: nat)
    ensures
        encode_utf8(placeholder(index)) == narrow(placeholder(index)),
        is_ascii_chars(placeholder(index)),
{
    let token = placeholder(index);
    lemma_digits(index);
    assert(token.len() == digits(index).len() + 3);
    assert forall|j: int| 0 <= j < token.len() implies '\0' <= #[trigger] token[j] <= '\u{7f}' by {
        if j < 2 {
            assert(token[j] == seq!['Z', 'M'][j]);
        } else if j < token.len() - 1 {
            assert(token[j] == digits(index)[j - 2]);
        } else {
            assert(token[j] == 'Z');
        }
    }
    is_ascii_chars_encode_utf8(token);
    assert(encode_utf8(token) =~= narrow(token));
}

/// Reading the token that was written for an index gives that index.
pub proof fn lemma_token_names_its_index(index: nat)
    ensures
        index_of_token(encode_utf8(placeholder(index))) == Some(index),
        token_end(encode_utf8(placeholder(index)), 0) == Some(
            encode_utf8(placeholder(index)).len() as int,
        ),
{
    let token = placeholder(index);
    let bytes = encode_utf8(token);
    let n = digits(index).len() as int;
    lemma_token_bytes(index);
    lemma_digits(index);
    assert(bytes.len() == n + 3);
    assert forall|j: int| 2 <= j < 2 + n implies digit_value(#[trigger] bytes[j]) is Some by {
        assert(token[j] == digits(index)[j - 2]);
    }
    assert(bytes[0] == 0x5a && bytes[1] == 0x4d && bytes[2 + n] == 0x5a);
    lemma_run_of_digits(bytes, 2, 2 + n);
    assert(bytes.subrange(2, bytes.len() - 1) =~= narrow(digits(index))) by {
        assert forall|j: int| 0 <= j < n implies bytes.subrange(2, bytes.len() - 1)[j] == narrow(
            digits(index),
        )[j] by {
            assert(token[j + 2] == digits(index)[j]);
        }
    }
}

/// The first token from `from` on is the one at `at`, where none starts
/// before it.
pub proof fn lemma_next_token_at(bytes: Seq<u8>, from: int, at: int)
    requires
        0 <= from <= at < bytes.len(),
        token_end(bytes, at) is Some,
        forall|p: int| from <= p < at ==> token_end(bytes, p) is None,
    ensures
        next_token(bytes, from) == Some((at, token_end(bytes, at)->Some_0)),
    decreases at - from,
{
    if from < at {
        lemma_next_token_at(bytes, from + 1, at);
    }
}

/// There is no token from `from` on where none starts there or later.
pub proof fn lemma_next_token_none(bytes: Seq<u8>, from: int)
    requires
        forall|p: int| from <= p < bytes.len() ==> token_end(bytes, p) is None,
    ensures
        next_token(bytes, from) is None,
    decreases bytes.len() - from,
{
    if 0 <= from < bytes.len() {
        lemma_next_token_none(bytes, from + 1);
    }
}

/// A run of digits ends where it ends in the bytes alone, whatever stands
/// before them.
pub proof fn lemma_run_end_behind(before: Seq<u8>, bytes: Seq<u8>, at: int)
    requires
        0 <= at,
    ensures
        run_end(before + bytes, before.len() + at) == before.len() + run_end(bytes, at),
    decreases bytes.len() - at,
{
    if at < bytes.len() {
        assert((before + bytes)[before.len() + at] == bytes[at]);
        if digit_value(bytes[at]) is Some {
            lemma_run_end_behind(before, bytes, at + 1);
        }
    }
}

/// A token ends where it ends in the bytes alone, whatever stands before them.
pub proof fn lemma_token_end_behind(before: Seq<u8>, bytes: Seq<u8>, at: int)
    requires
        0 <= at,
    ensures
        token_end(before + bytes, before.len() + at) == match token_end(bytes, at) {
            Some(end) => Some(before.len() + end),
            None => None,
        },
{
    let whole = before + bytes;
    lemma_run_end_behind(before, bytes, at + 2);
    lemma_run_end_bounds(bytes, at + 2);
    let end = run_end(bytes, at + 2);
    if at + 2 < end < bytes.len() {
        assert(whole[before.len() + at] == bytes[at]);
        assert(whole[before.len() + at + 1] == bytes[at + 1]);
        assert(whole[before.len() + end] == bytes[end]);
    }
}

/// A run of digits ends where it ends in the bytes alone, where what follows
/// them starts with no digit.
pub proof fn lemma_run_end_ahead(bytes: Seq<u8>, behind: Seq<u8>, at: int)
    requires
        0 <= at <= bytes.len(),
        behind.len() > 0 ==> digit_value(behind[0]) is None,
    ensures
        run_end(bytes + behind, at) == run_end(bytes, at),
    decreases bytes.len() - at,
{
    if at < bytes.len() {
        assert((bytes + behind)[at] == bytes[at]);
        if digit_value(bytes[at]) is Some {
            lemma_run_end_ahead(bytes, behind, at + 1);
        }
    } else if behind.len() > 0 {
        assert((bytes + behind)[at] == behind[0]);
    }
}

/// The first byte, as a sequence; nothing where there is none.
pub open spec fn head_of(bytes: Seq<u8>) -> Seq<u8> {
    if bytes.len() > 0 {
        seq![bytes[0]]
    } else {
        Seq::empty()
    }
}

/// Whether a token starts within the bytes depends on them and on the first
/// byte behind them alone, where that byte is no digit.
pub proof fn lemma_token_end_ahead(bytes: Seq<u8>, behind: Seq<u8>, at: int)
    requires
        0 <= at < bytes.len(),
        behind.len() > 0 ==> digit_value(behind[0]) is None,
    ensures
        token_end(bytes + behind, at) == token_end(bytes + head_of(behind), at),
{
    let long = bytes + behind;
    let short = bytes + head_of(behind);
    lemma_run_end_bounds(bytes, at + 2);
    if at + 2 <= bytes.len() {
        lemma_run_end_ahead(bytes, behind, at + 2);
        lemma_run_end_ahead(bytes, head_of(behind), at + 2);
        let end = run_end(bytes, at + 2);
        assert(long[at] == short[at]);
        assert(long[at + 1] == short[at + 1]);
        if end < bytes.len() {
            assert(long[end] == short[end]);
        } else if behind.len() > 0 {
            assert(long[end] == behind[0]);
            assert(short[end] == behind[0]);
        }
    } else {
        if behind.len() > 0 {
            assert(long[at + 1] == behind[0]);
            assert(short[at + 1] == behind[0]);
            assert(!is_m(behind[0]));
        }
        lemma_run_end_bounds(long, at + 2);
        lemma_run_end_bounds(short, at + 2);
    }
}

/// Where the token of an index is written, a token starts, ends behind what
/// was written, and names that index, whatever stands before and behind it.
pub proof fn lemma_token_written(before: Seq<u8>, index: nat, behind: Seq<u8>)
    ensures
        token_end(
            before + encode_utf8(placeholder(index)) + behind,
            before.len() as int,
        ) == Some((before.len() + encode_utf8(placeholder(index)).len()) as int),
        token_index(
            before + encode_utf8(placeholder(index)) + behind,
            before.len() as int,
            (before.len() + encode_utf8(placeholder(index)).len()) as int,
        ) == index,
        encode_utf8(placeholder(index)).len() >= 4,
        encode_utf8(placeholder(index))[0] == 0x5a,
{
    let token = encode_utf8(placeholder(index));
    let n = token.len() as int;
    lemma_token_names_its_index(index);
    lemma_token_bytes(index);
    lemma_run_end_bounds(token, 2);
    assert(token[0] == 0x5a);
    assert(run_end(token, 2) == n - 1);
    // What stands behind the token does not reach into it.
    let tail = token + behind;
    assert(run_end(tail, 2) == n - 1) by {
        lemma_run_inside(token, behind, 2);
    }
    assert(tail[0] == token[0] && tail[1] == token[1] && tail[n - 1] == token[n - 1]);
    assert(token_end(tail, 0) == Some(n));
    assert(tail.subrange(2, n - 1) =~= token.subrange(2, n - 1));
    lemma_token_end_behind(before, tail, 0);
    let whole = before + token + behind;
    assert(whole =~= before + tail);
    let base = before.len() as int;
    assert(whole.subrange(base + 2, base + n - 1) =~= token.subrange(2, n - 1));
}

/// A run of digits that ends within the bytes ends there whatever follows
/// the bytes.
pub proof fn lemma_run_inside(bytes: Seq<u8>, behind: Seq<u8>, at: int)
    requires
        0 <= at,
        run_end(bytes, at) < bytes.len(),
    ensures
        run_end(bytes + behind, at) == run_end(bytes, at),
    decreases bytes.len() - at,
{
    if at < bytes.len() {
        assert((bytes + behind)[at] == bytes[at]);
        if digit_value(bytes[at]) is Some {
            lemma_run_inside(bytes, behind, at + 1);
        }
    }
}

} // verus!
