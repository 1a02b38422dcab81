//! Text helpers: hexadecimal and UTF-8.

use vstd::prelude::*;
use vstd::utf8;

verus! {

/// The lower-case hexadecimal digit of `n`, which is below 16.
pub open spec fn hex_digit(n: int) -> char {
    if n < 10 {
        (0x30 + n) as char
    } else {
        (0x57 + n) as char
    }
}

/// Two lower-case hexadecimal digits for each byte.
pub open spec fn hex_text(bytes: Seq<u8>) -> Seq<char> {
    Seq::new(
        2 * bytes.len(),
        |i: int|
            hex_digit(
                if i % 2 == 0 {
                    bytes[i / 2] as int / 16
                } else {
                    bytes[i / 2] as int % 16
                },
            ),
    )
}

/// `String::from_utf8`: the text that the bytes encode, or `None` when they are not valid
/// UTF-8.
#[verifier::external_body]
pub(crate) fn text_from_utf8(bytes: Vec<u8>) -> (text: Option<String>)
    ensures
        text is Some <==> utf8::valid_utf8(bytes@),
        match text {
            Some(t) => t@ == utf8::decode_utf8(bytes@),
            None => true,
        },
{
    String::from_utf8(bytes).ok()
}

fn hex_byte(n: u8) -> (digit: u8)
    requires
        n < 16,
    ensures
        digit as char == hex_digit(n as int),
        digit < 0x80,
{
    if n < 10 {
        0x30 + n
    } else {
        0x57 + n
    }
}

/// The lower-case hexadecimal form of `bytes`.
pub fn to_hex(bytes: &[u8]) -> (text: String)
    ensures
        text@ == hex_text(bytes@),
{
    let mut digits: Vec<u8> = Vec::new();
    let mut i: usize = 0;
    while i < bytes.len()
        invariant
            i <= bytes@.len(),
            digits@.len() == 2 * i,
            forall|j: int|
                0 <= j < digits@.len() ==> #[trigger] digits@[j] as char == hex_text(bytes@)[j]
                    && digits@[j] < 0x80,
        decreases bytes@.len() - i,
    {
        digits.push(hex_byte(bytes[i] / 16));
        digits.push(hex_byte(bytes[i] % 16));
        i += 1;
    }
    let ghost chars = hex_text(bytes@);
    let ghost raw = digits@;
    proof {
        assert forall|j: int| 0 <= j < chars.len() implies #[trigger] chars[j] as u8 == raw[j]
            && chars[j] as u32 <= 0x7f by {
            assert(raw[j] as char == chars[j]);
        }
        utf8::is_ascii_chars_encode_utf8(chars);
        assert(utf8::encode_utf8(chars) =~= raw);
        utf8::encode_utf8_valid_utf8(chars);
        utf8::encode_utf8_decode_utf8(chars);
    }
    match text_from_utf8(digits) {
        Some(text) => text,
        None => String::new(),
    }
}

/// The decimal form of `n`.
pub open spec fn decimal_text(n: nat) -> Seq<char>
    decreases n,
{
    if n < 10 {
        seq![hex_digit(n as int)]
    } else {
        decimal_text(n / 10).push(hex_digit((n % 10) as int))
    }
}

fn push_decimal(out: &mut Vec<u8>, n: u64)
    ensures
        final(out)@.len() == old(out)@.len() + decimal_text(n as nat).len(),
        forall|j: int| 0 <= j < old(out)@.len() ==> final(out)@[j] == old(out)@[j],
        forall|j: int|
            0 <= j < decimal_text(n as nat).len() ==> (#[trigger] final(out)@[old(out)@.len()
                + j]) as char == decimal_text(n as nat)[j] && final(out)@[old(out)@.len() + j]
                < 0x80,
    decreases n,
{
    let ghost start = out@.len();
    if n >= 10 {
        push_decimal(out, n / 10);
    }
    let ghost front = out@;
    out.push(hex_byte((n % 10) as u8));
    proof {
        let all = decimal_text(n as nat);
        assert forall|j: int| 0 <= j < all.len() implies (#[trigger] out@[start + j]) as char
            == all[j] && out@[start + j] < 0x80 by {
            if j < all.len() - 1 {
                assert(out@[start + j] == front[start + j]);
            }
        }
    }
}

/// The decimal form of `n`.
pub fn decimal(n: u64) -> (text: String)
    ensures
        text@ == decimal_text(n as nat),
{
    let mut digits: Vec<u8> = Vec::new();
    let ghost start = digits@;
    push_decimal(&mut digits, n);
    let ghost chars = decimal_text(n as nat);
    let ghost raw = digits@;
    proof {
        assert forall|j: int| 0 <= j < chars.len() implies (#[trigger] chars[j]) as u8
            == raw[j] && '\0' <= chars[j] <= '\u{7f}' by {
            assert(raw[start.len() + j] as char == chars[j]);
        }
        utf8::is_ascii_chars_encode_utf8(chars);
        assert(utf8::encode_utf8(chars) =~= raw);
        utf8::encode_utf8_valid_utf8(chars);
        utf8::encode_utf8_decode_utf8(chars);
    }
    match text_from_utf8(digits) {
        Some(text) => text,
        None => String::new(),
    }
}

/// What a hexadecimal digit stands for.
pub open spec fn digit_value(c: char) -> int {
    if '0' <= c <= '9' {
        c as int - '0' as int
    } else {
        c as int - 'a' as int + 10
    }
}

/// Hexadecimal text spells every byte: two digits each, of `0` to `9` and `a` to `f`, the high one
/// first.
pub proof fn law_hex_spells_every_byte(bytes: Seq<u8>, i: int)
    requires
        0 <= i < bytes.len(),
    ensures
        hex_text(bytes).len() == 2 * bytes.len(),
        16 * digit_value(hex_text(bytes)[2 * i]) + digit_value(hex_text(bytes)[2 * i + 1])
            == bytes[i],
        0 <= digit_value(hex_text(bytes)[2 * i]) < 16,
        0 <= digit_value(hex_text(bytes)[2 * i + 1]) < 16,
{
    let high = bytes[i] as int / 16;
    let low = bytes[i] as int % 16;
    assert(hex_text(bytes)[2 * i] == hex_digit(high));
    assert((2 * i + 1) / 2 == i);
    assert(hex_text(bytes)[2 * i + 1] == hex_digit(low));
    lemma_digit(high);
    lemma_digit(low);
}

proof fn lemma_digit(n: int)
    requires
        0 <= n < 16,
    ensures
        digit_value(hex_digit(n)) == n,
{
}

/// What decimal digits spell.
pub open spec fn decimal_value(s: Seq<char>) -> int
    decreases s.len(),
{
    if s.len() == 0 {
        0
    } else {
        10 * decimal_value(s.drop_last()) + digit_value(s.last())
    }
}

/// Decimal text spells its number, without a nought in front.
pub proof fn law_decimal_spells_its_number(n: nat)
    ensures
        decimal_value(decimal_text(n)) == n,
        decimal_text(n).len() > 0,
        n > 0 ==> decimal_text(n)[0] != '0',
        forall|i: int|
            0 <= i < decimal_text(n).len() ==> '0' <= #[trigger] decimal_text(n)[i] <= '9',
    decreases n,
{
    reveal_with_fuel(decimal_value, 2);
    let all = decimal_text(n);
    if n < 10 {
        lemma_digit(n as int);
        assert(all.drop_last() =~= Seq::<char>::empty());
    } else {
        law_decimal_spells_its_number(n / 10);
        let front = decimal_text(n / 10);
        lemma_digit((n % 10) as int);
        assert(all.drop_last() =~= front);
        assert(all[0] == front[0]);
        assert forall|i: int| 0 <= i < all.len() implies '0' <= #[trigger] all[i] <= '9' by {
            if i < front.len() {
                assert(all[i] == front[i]);
            }
        }
    }
}

} // verus!
