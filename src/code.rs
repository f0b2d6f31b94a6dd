//! Encoding tables: from instruction fields to their bit patterns.
use vstd::arithmetic::power2::{lemma2_to64, lemma_pow2_unfold, pow2};
use vstd::prelude::*;

use crate::error::{text_result, AsmError};
use crate::text::{contains_char, same_text};

verus! {

/// A decimal digit.
pub open spec fn is_digit(c: char) -> bool {
    '0' <= c && c <= '9'
}

/// The value of a decimal digit.
pub open spec fn digit_value(c: char) -> nat {
    (c as int - '0' as int) as nat
}

/// The decimal digit for `d` (taken as 9 above 9).
pub open spec fn digit_char(d: nat) -> char {
    if d == 0 {
        '0'
    } else if d == 1 {
        '1'
    } else if d == 2 {
        '2'
    } else if d == 3 {
        '3'
    } else if d == 4 {
        '4'
    } else if d == 5 {
        '5'
    } else if d == 6 {
        '6'
    } else if d == 7 {
        '7'
    } else if d == 8 {
        '8'
    } else {
        '9'
    }
}

/// A non-empty run of decimal digits.
pub open spec fn is_numeral(s: Seq<char>) -> bool {
    s.len() > 0 && forall|i: int| 0 <= i < s.len() ==> is_digit(#[trigger] s[i])
}

/// The number that a run of decimal digits writes.
pub open spec fn decimal_value(s: Seq<char>) -> nat
    decreases s.len(),
{
    if s.len() == 0 {
        0
    } else {
        10 * decimal_value(s.drop_last()) + digit_value(s.last())
    }
}

/// A run of decimal digits read as an unsigned 32-bit number, where it is one.
pub open spec fn digits_u32(s: Seq<char>) -> Option<u32> {
    if is_numeral(s) && decimal_value(s) <= u32::MAX {
        Some(decimal_value(s) as u32)
    } else {
        None
    }
}

/// The digits of an unsigned number: `s` without one leading `+`.
pub open spec fn unsigned_digits(s: Seq<char>) -> Seq<char> {
    if s.len() > 0 && s[0] == '+' {
        s.drop_first()
    } else {
        s
    }
}

/// `s` read as an unsigned 32-bit number, where it is one: an optional `+`,
/// then at least one decimal digit.
pub open spec fn numeral_u32(s: Seq<char>) -> Option<u32> {
    digits_u32(unsigned_digits(s))
}

/// The decimal digits of `v`, without leading zeros.
pub open spec fn decimal_of(v: nat) -> Seq<char>
    decreases v,
{
    if v < 10 {
        seq![digit_char(v)]
    } else {
        decimal_of(v / 10).push(digit_char(v % 10))
    }
}

/// The lowest `w` bits of `v`, most significant first.
pub open spec fn binary_of(v: nat, w: nat) -> Seq<char>
    decreases w,
{
    if w == 0 {
        Seq::empty()
    } else {
        binary_of(v / 2, (w - 1) as nat).push(if v % 2 == 1 { '1' } else { '0' })
    }
}

/// The number that a string of binary digits writes.
pub open spec fn binary_value(s: Seq<char>) -> nat
    decreases s.len(),
{
    if s.len() == 0 {
        0
    } else {
        2 * binary_value(s.drop_last()) + if s.last() == '1' { 1nat } else { 0nat }
    }
}

/// The word of an address instruction whose resolved value is written `s`.
pub open spec fn address_bits(s: Seq<char>) -> Result<Seq<char>, AsmError> {
    let d = unsigned_digits(s);
    if is_numeral(d) && decimal_value(d) < 65536 {
        Ok(binary_of(decimal_value(d), 16))
    } else {
        Err(AsmError::InvalidAddress)
    }
}

/// The destination field: `M` gives 1, `D` gives 2, `A` gives 4.
pub open spec fn dest_bits(s: Seq<char>) -> Seq<char> {
    binary_of(
        (if s.contains('M') { 1nat } else { 0nat }) + (if s.contains('D') { 2nat } else { 0nat }) + (
        if s.contains('A') { 4nat } else { 0nat }),
        3,
    )
}

/// The six operation bits of a computation mnemonic.
pub open spec fn comp_code(s: Seq<char>) -> Option<Seq<char>> {
    if s == "0"@ {
        Some("101010"@)
    } else if s == "1"@ {
        Some("111111"@)
    } else if s == "-1"@ {
        Some("111010"@)
    } else if s == "D"@ {
        Some("001100"@)
    } else if s == "A"@ || s == "M"@ {
        Some("110000"@)
    } else if s == "!D"@ {
        Some("001101"@)
    } else if s == "!A"@ || s == "!M"@ {
        Some("110001"@)
    } else if s == "-D"@ {
        Some("001111"@)
    } else if s == "-A"@ || s == "-M"@ {
        Some("110011"@)
    } else if s == "D+1"@ {
        Some("011111"@)
    } else if s == "A+1"@ || s == "M+1"@ {
        Some("110111"@)
    } else if s == "D-1"@ {
        Some("001110"@)
    } else if s == "A-1"@ || s == "M-1"@ {
        Some("110010"@)
    } else if s == "D+A"@ || s == "D+M"@ {
        Some("000010"@)
    } else if s == "D-A"@ || s == "D-M"@ {
        Some("010011"@)
    } else if s == "A-D"@ || s == "M-D"@ {
        Some("000111"@)
    } else if s == "D&A"@ || s == "D&M"@ {
        Some("000000"@)
    } else if s == "D|A"@ || s == "D|M"@ {
        Some("010101"@)
    } else {
        None
    }
}

/// The computation field: the memory flag, then the operation bits.
pub open spec fn comp_bits(s: Seq<char>) -> Result<Seq<char>, AsmError> {
    match comp_code(s) {
        Some(code) => Ok((if s.contains('M') { "1"@ } else { "0"@ }) + code),
        None => Err(AsmError::UnknownComp),
    }
}

/// The jump field.
pub open spec fn jump_bits(s: Seq<char>) -> Result<Seq<char>, AsmError> {
    if s == ""@ {
        Ok("000"@)
    } else if s == "JGT"@ {
        Ok("001"@)
    } else if s == "JEQ"@ {
        Ok("010"@)
    } else if s == "JGE"@ {
        Ok("011"@)
    } else if s == "JLT"@ {
        Ok("100"@)
    } else if s == "JNE"@ {
        Ok("101"@)
    } else if s == "JLE"@ {
        Ok("110"@)
    } else if s == "JMP"@ {
        Ok("111"@)
    } else {
        Err(AsmError::UnknownJump)
    }
}

proof fn lemma_digit_char(d: nat)
    requires
        d < 10,
    ensures
        is_digit(digit_char(d)),
        digit_value(digit_char(d)) == d,
{
}

/// The decimal digits of a number read back as that number.
pub proof fn lemma_decimal_round_trip(v: nat)
    ensures
        is_numeral(decimal_of(v)),
        decimal_value(decimal_of(v)) == v,
    decreases v,
{
    if v < 10 {
        lemma_digit_char(v);
        assert(decimal_of(v).drop_last() =~= Seq::<char>::empty());
        assert(decimal_value(Seq::<char>::empty()) == 0);
    } else {
        lemma_decimal_round_trip(v / 10);
        lemma_digit_char(v % 10);
        let s = decimal_of(v);
        assert(s.drop_last() =~= decimal_of(v / 10));
        assert forall|i: int| 0 <= i < s.len() implies is_digit(#[trigger] s[i]) by {
            if i < s.len() - 1 {
                assert(s[i] == decimal_of(v / 10)[i]);
            }
        }
    }
}

/// `w` binary digits of a number below `2^w` read back as that number.
pub proof fn lemma_binary_round_trip(v: nat, w: nat)
    requires
        v < pow2(w),
    ensures
        binary_of(v, w).len() == w,
        binary_value(binary_of(v, w)) == v,
    decreases w,
{
    if w == 0 {
        lemma2_to64();
    } else {
        lemma_pow2_unfold(w);
        lemma_binary_round_trip(v / 2, (w - 1) as nat);
        assert(binary_of(v, w).drop_last() =~= binary_of(v / 2, (w - 1) as nat));
    }
}

/// Reading a decimal address and writing it in sixteen bits gives back its
/// value: for every `v` below 65536, the address written `decimal_of(v)`
/// encodes as sixteen binary digits whose value is `v`.
pub proof fn lemma_address_round_trip(v: nat)
    requires
        v < 65536,
    ensures
        address_bits(decimal_of(v)) == Ok::<Seq<char>, AsmError>(binary_of(v, 16)),
        binary_of(v, 16).len() == 16,
        binary_value(binary_of(v, 16)) == v,
{
    lemma_decimal_round_trip(v);
    assert(is_digit(decimal_of(v)[0]));
    lemma2_to64();
    lemma_binary_round_trip(v, 16);
}

proof fn lemma_decimal_prefix_grows(s: Seq<char>, i: int, j: int)
    requires
        0 <= i <= j <= s.len(),
    ensures
        decimal_value(s.subrange(0, i)) <= decimal_value(s.subrange(0, j)),
    decreases j - i,
{
    if i < j {
        lemma_decimal_prefix_grows(s, i, j - 1);
        assert(s.subrange(0, j).drop_last() =~= s.subrange(0, j - 1));
    }
}

/// The one-character string for the digit `d`.
fn digit_text(d: u32) -> (r: &'static str)
    requires
        d < 10,
    ensures
        r@ == seq![digit_char(d as nat)],
{
    proof {
        reveal_strlit("0");
        reveal_strlit("1");
        reveal_strlit("2");
        reveal_strlit("3");
        reveal_strlit("4");
        reveal_strlit("5");
        reveal_strlit("6");
        reveal_strlit("7");
        reveal_strlit("8");
        reveal_strlit("9");
    }
    let r = if d == 0 {
        "0"
    } else if d == 1 {
        "1"
    } else if d == 2 {
        "2"
    } else if d == 3 {
        "3"
    } else if d == 4 {
        "4"
    } else if d == 5 {
        "5"
    } else if d == 6 {
        "6"
    } else if d == 7 {
        "7"
    } else if d == 8 {
        "8"
    } else {
        "9"
    };
    assert(r@ =~= seq![digit_char(d as nat)]);
    r
}

/// Reads `s` as an unsigned 32-bit decimal number, with an optional leading `+`.
pub fn parse_number(s: &str) -> (r: Option<u32>)
    ensures
        r == numeral_u32(s@),
{
    let n = s.unicode_len();
    if n > 0 && s.get_char(0) == '+' {
        let rest = s.substring_char(1, n);
        assert(rest@ =~= s@.drop_first());
        parse_digits(rest)
    } else {
        parse_digits(s)
    }
}

/// Reads a run of decimal digits as an unsigned 32-bit number.
fn parse_digits(s: &str) -> (r: Option<u32>)
    ensures
        r == digits_u32(s@),
{
    let n = s.unicode_len();
    if n == 0 {
        return None;
    }
    let mut i: usize = 0;
    while i < n
        invariant
            n == s@.len(),
            i <= n,
            forall|j: int| 0 <= j < i ==> is_digit(#[trigger] s@[j]),
        decreases n - i,
    {
        let c = s.get_char(i);
        if !('0' <= c && c <= '9') {
            return None;
        }
        i = i + 1;
    }
    let mut acc: u64 = 0;
    let mut k: usize = 0;
    while k < n
        invariant
            n == s@.len(),
            k <= n,
            is_numeral(s@),
            acc == decimal_value(s@.subrange(0, k as int)),
            acc <= u32::MAX,
        decreases n - k,
    {
        let c = s.get_char(k);
        assert(is_digit(s@[k as int]));
        let d = (c as u32 - '0' as u32) as u64;
        assert(s@.subrange(0, k + 1).drop_last() =~= s@.subrange(0, k as int));
        acc = acc * 10 + d;
        k = k + 1;
        if acc > u32::MAX as u64 {
            proof {
                lemma_decimal_prefix_grows(s@, k as int, n as int);
                assert(s@.subrange(0, n as int) =~= s@);
            }
            return None;
        }
    }
    assert(s@.subrange(0, n as int) =~= s@);
    Some(acc as u32)
}

/// The decimal digits of `v`.
pub fn decimal_text(v: u32) -> (r: String)
    ensures
        r@ == decimal_of(v as nat),
{
    let mut acc = String::from_str(digit_text(v % 10));
    let mut rem: u32 = v / 10;
    while rem > 0
        invariant
            rem > 0 ==> decimal_of(v as nat) == decimal_of(rem as nat) + acc@,
            rem == 0 ==> decimal_of(v as nat) == acc@,
        decreases rem,
    {
        let piece = String::from_str(digit_text(rem % 10));
        proof {
            if rem >= 10 {
                assert(decimal_of(rem as nat) == decimal_of((rem / 10) as nat).push(
                    digit_char((rem % 10) as nat),
                ));
                assert(decimal_of(rem as nat) + acc@ =~= decimal_of((rem / 10) as nat) + (piece@
                    + acc@));
            } else {
                assert(decimal_of(rem as nat) + acc@ =~= piece@ + acc@);
            }
        }
        acc = piece.concat(acc.as_str());
        rem = rem / 10;
    }
    acc
}

/// The lowest `w` bits of `v` as binary digits, most significant first.
pub fn binary_text(v: u32, w: usize) -> (r: String)
    ensures
        r@ == binary_of(v as nat, w as nat),
{
    proof {
        reveal_strlit("0");
        reveal_strlit("1");
    }
    let mut acc = String::new();
    let mut rem: u32 = v;
    let mut k: usize = 0;
    assert(binary_of(v as nat, w as nat) =~= binary_of(rem as nat, (w - k) as nat) + acc@);
    while k < w
        invariant
            k <= w,
            binary_of(v as nat, w as nat) == binary_of(rem as nat, (w - k) as nat) + acc@,
        decreases w - k,
    {
        let piece = String::from_str(if rem % 2 == 1 { "1" } else { "0" });
        let ghost b = if rem % 2 == 1 { '1' } else { '0' };
        proof {
            reveal_strlit("0");
            reveal_strlit("1");
        }
        assert(piece@ =~= seq![b]);
        assert(binary_of(rem as nat, (w - k) as nat) == binary_of(
            (rem / 2) as nat,
            (w - k - 1) as nat,
        ).push(b));
        assert(binary_of(rem as nat, (w - k) as nat) + acc@ =~= binary_of(
            (rem / 2) as nat,
            (w - k - 1) as nat,
        ) + (piece@ + acc@));
        acc = piece.concat(acc.as_str());
        rem = rem / 2;
        k = k + 1;
    }
    acc
}

/// Encodes the resolved value of an address instruction as a sixteen-bit word.
pub fn a_value_to_binary(instruction: String) -> (r: Result<String, AsmError>)
    ensures
        text_result(r) == address_bits(instruction@),
{
    match parse_number(instruction.as_str()) {
        Some(v) => {
            if v < 65536 {
                Ok(binary_text(v, 16))
            } else {
                Err(AsmError::InvalidAddress)
            }
        },
        None => Err(AsmError::InvalidAddress),
    }
}

/// Encodes the destination part of a compute instruction.
pub fn dest_to_binary(instruction: String) -> (r: String)
    ensures
        r@ == dest_bits(instruction@),
{
    let mut dest: u32 = if contains_char(instruction.as_str(), 'M') {
        1
    } else {
        0
    };
    dest = dest + if contains_char(instruction.as_str(), 'D') {
        2
    } else {
        0
    };
    dest = dest + if contains_char(instruction.as_str(), 'A') {
        4
    } else {
        0
    };
    binary_text(dest, 3)
}

/// Encodes the computation part of a compute instruction.
pub fn comp_to_binary(instruction: String) -> (r: Result<String, AsmError>)
    ensures
        text_result(r) == comp_bits(instruction@),
{
    let t = instruction.as_str();
    let code: Option<&str> = if same_text(t, "0") {
        Some("101010")
    } else if same_text(t, "1") {
        Some("111111")
    } else if same_text(t, "-1") {
        Some("111010")
    } else if same_text(t, "D") {
        Some("001100")
    } else if same_text(t, "A") || same_text(t, "M") {
        Some("110000")
    } else if same_text(t, "!D") {
        Some("001101")
    } else if same_text(t, "!A") || same_text(t, "!M") {
        Some("110001")
    } else if same_text(t, "-D") {
        Some("001111")
    } else if same_text(t, "-A") || same_text(t, "-M") {
        Some("110011")
    } else if same_text(t, "D+1") {
        Some("011111")
    } else if same_text(t, "A+1") || same_text(t, "M+1") {
        Some("110111")
    } else if same_text(t, "D-1") {
        Some("001110")
    } else if same_text(t, "A-1") || same_text(t, "M-1") {
        Some("110010")
    } else if same_text(t, "D+A") || same_text(t, "D+M") {
        Some("000010")
    } else if same_text(t, "D-A") || same_text(t, "D-M") {
        Some("010011")
    } else if same_text(t, "A-D") || same_text(t, "M-D") {
        Some("000111")
    } else if same_text(t, "D&A") || same_text(t, "D&M") {
        Some("000000")
    } else if same_text(t, "D|A") || same_text(t, "D|M") {
        Some("010101")
    } else {
        None
    };
    match code {
        Some(c) => {
            let prefix = if contains_char(t, 'M') {
                "1"
            } else {
                "0"
            };
            Ok(String::from_str(prefix).concat(c))
        },
        None => Err(AsmError::UnknownComp),
    }
}

/// Encodes the jump part of a compute instruction.
pub fn jump_to_binary(instruction: String) -> (r: Result<String, AsmError>)
    ensures
        text_result(r) == jump_bits(instruction@),
{
    let t = instruction.as_str();
    let code: Option<&str> = if same_text(t, "") {
        Some("000")
    } else if same_text(t, "JGT") {
        Some("001")
    } else if same_text(t, "JEQ") {
        Some("010")
    } else if same_text(t, "JGE") {
        Some("011")
    } else if same_text(t, "JLT") {
        Some("100")
    } else if same_text(t, "JNE") {
        Some("101")
    } else if same_text(t, "JLE") {
        Some("110")
    } else if same_text(t, "JMP") {
        Some("111")
    } else {
        None
    };
    match code {
        Some(c) => Ok(String::from_str(c)),
        None => Err(AsmError::UnknownJump),
    }
}

} // verus!
