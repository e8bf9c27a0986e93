//! Text: appending characters, numbers in decimal, and padding to a width.

use vstd::arithmetic::power::*;
use vstd::prelude::*;
use vstd::string::{StrSliceExecFns, StringExecFns};
use vstd::utf8::*;

verus! {

/// `String::push` appends one character.
pub assume_specification[ String::push ](s: &mut String, ch: char)
    ensures
        final(s)@ == old(s)@.push(ch),
;

/// Calls `String::from_utf8`, which accepts exactly the valid UTF-8 byte strings and hands back
/// the text they encode.
#[verifier::external_body]
pub(crate) fn utf8_text(bytes: Vec<u8>) -> (text: Option<String>)
    ensures
        text is Some <==> valid_utf8(bytes@),
        text matches Some(s) ==> s@ == decode_utf8(bytes@),
{
    String::from_utf8(bytes).ok()
}

/// The characters of `text` in order.
pub fn chars_of(text: &str) -> (chars: Vec<char>)
    ensures
        chars@ == text@,
{
    let mut chars: Vec<char> = Vec::new();
    for c in it: text.chars()
        invariant
            chars@ == it.seq().take(it.index() as int),
    {
        chars.push(c);
    }
    assert(chars@ =~= text@);
    chars
}

/// The decimal digits of `n`.
pub open spec fn decimal(n: nat) -> Seq<char>
    decreases n,
{
    let last = ('0' as nat + n % 10) as char;
    if n < 10 {
        seq![last]
    } else {
        decimal(n / 10).push(last)
    }
}

pub proof fn lemma_decimal_ascii(n: nat)
    ensures
        is_ascii_chars(decimal(n)),
    decreases n,
{
    if n >= 10 {
        lemma_decimal_ascii(n / 10);
    }
}

proof fn lemma_decimal_len_below(n: nat, digits: nat)
    requires
        digits > 0,
        n < pow(10, digits),
    ensures
        decimal(n).len() <= digits,
    decreases digits,
{
    reveal_with_fuel(pow, 2);
    if n >= 10 {
        lemma_decimal_len_below(n / 10, (digits - 1) as nat);
    }
}

pub proof fn lemma_decimal_len(n: nat)
    requires
        n <= u64::MAX,
    ensures
        decimal(n).len() <= 20,
{
    assert(pow(10, 20) == 100_000_000_000_000_000_000) by {
        reveal_with_fuel(pow, 21);
    }
    lemma_decimal_len_below(n, 20);
}

/// Appends the decimal digits of `n` to `out`.
pub fn push_decimal(out: &mut String, n: u64)
    ensures
        final(out)@ == old(out)@ + decimal(n as nat),
    decreases n,
{
    let ghost start = out@;
    if n >= 10 {
        push_decimal(out, n / 10);
    }
    out.push((48 + (n % 10) as u8) as char);
    assert(out@ =~= start + decimal(n as nat));
}

/// The decimal digits of `n`.
pub fn decimal_text(n: u64) -> (out: String)
    ensures
        out@ == decimal(n as nat),
{
    let mut out = String::new();
    push_decimal(&mut out, n);
    assert(out@ =~= decimal(n as nat));
    out
}

/// `n` times the same character.
pub open spec fn fill(c: char, n: nat) -> Seq<char> {
    Seq::new(n, |i: int| c)
}

/// How many characters `text` lacks to `width`.
pub open spec fn lacking(text: Seq<char>, width: nat) -> nat {
    if text.len() < width {
        (width - text.len()) as nat
    } else {
        0
    }
}

/// `text`, filled up with spaces behind it.
pub open spec fn left_aligned(text: Seq<char>, width: nat) -> Seq<char> {
    text + fill(' ', lacking(text, width))
}

/// `text`, filled up with spaces before it.
pub open spec fn right_aligned(text: Seq<char>, width: nat) -> Seq<char> {
    fill(' ', lacking(text, width)) + text
}

/// Appends `n` times the same character to `out`.
pub fn push_fill(out: &mut String, c: char, n: usize)
    ensures
        final(out)@ == old(out)@ + fill(c, n as nat),
{
    let ghost start = out@;
    let mut done: usize = 0;
    while done < n
        invariant
            done <= n,
            out@ =~= start + fill(c, done as nat),
        decreases n - done,
    {
        out.push(c);
        done = done + 1;
    }
}

/// Appends `text` to `out`, filled up with spaces behind it.
pub fn push_left_aligned(out: &mut String, text: &str, width: usize)
    ensures
        final(out)@ == old(out)@ + left_aligned(text@, width as nat),
{
    let ghost start = out@;
    let len: usize = text.unicode_len();
    out.append(text);
    if len < width {
        push_fill(out, ' ', width - len);
    }
    assert(out@ =~= start + left_aligned(text@, width as nat));
}

/// Appends `text` to `out`, filled up with spaces before it.
pub fn push_right_aligned(out: &mut String, text: &str, width: usize)
    ensures
        final(out)@ == old(out)@ + right_aligned(text@, width as nat),
{
    let ghost start = out@;
    let len: usize = text.unicode_len();
    if len < width {
        push_fill(out, ' ', width - len);
    }
    out.append(text);
    assert(out@ =~= start + right_aligned(text@, width as nat));
}

/// A number is written with as many digits as it has, most significant first: the digit at `k`,
/// counted from the end, is the one that counts for ten to the power of `k`.
pub proof fn decimals_are_the_digits(n: nat, k: int)
    requires
        0 <= k < decimal(n).len(),
    ensures
        decimal(n)[decimal(n).len() - 1 - k] as int == 48 + n as int / pow(10, k as nat) % 10,
        (n as int) < pow(10, decimal(n).len()),
        decimal(n).len() > 1 ==> n as int >= pow(10, (decimal(n).len() - 1) as nat),
    decreases n,
{
    let len = decimal(n).len();
    reveal_with_fuel(pow, 2);
    if n < 10 {
        assert(n as int / pow(10, 0) % 10 == n) by {
            lemma_pow0(10);
        }
    } else {
        let high = n / 10;
        assert(decimal(high).len() == len - 1);
        lemma_decimal_not_empty(high);
        if k == 0 {
            decimals_are_the_digits(high, 0);
            lemma_pow0(10);
        } else {
            decimals_are_the_digits(high, k - 1);
            let low = pow(10, (k - 1) as nat);
            lemma_pow_positive(10, (k - 1) as nat);
            assert(pow(10, k as nat) == 10 * low);
            vstd::arithmetic::div_mod::lemma_div_denominator(n as int, 10, low);
            assert(decimal(n)[len - 1 - k] == decimal(high)[len - 1 - k]);
        }
        assert(pow(10, len) == 10 * pow(10, (len - 1) as nat));
        if len == 2 {
            lemma_pow0(10);
            assert(pow(10, 1) == 10);
        } else {
            assert(pow(10, (len - 1) as nat) == 10 * pow(10, (len - 2) as nat));
        }
    }
}

proof fn lemma_decimal_not_empty(n: nat)
    ensures
        decimal(n).len() > 0,
{
}

/// A text that is aligned to the left stands at the start of its column, with spaces behind it.
pub proof fn left_aligned_text_comes_first(text: Seq<char>, width: nat)
    ensures
        left_aligned(text, width).len() == vstd::math::max(text.len() as int, width as int),
        left_aligned(text, width).take(text.len() as int) == text,
        forall|i: int|
            text.len() <= i < left_aligned(text, width).len() ==> #[trigger] left_aligned(
                text,
                width,
            )[i] == ' ',
{
    assert(left_aligned(text, width).take(text.len() as int) =~= text);
}

/// A text that is aligned to the right stands at the end of its column, with spaces before it.
pub proof fn right_aligned_text_comes_last(text: Seq<char>, width: nat)
    ensures
        ({
            let column = right_aligned(text, width);
            let before = column.len() - text.len();
            &&& column.len() == vstd::math::max(text.len() as int, width as int)
            &&& column.skip(before) == text
            &&& forall|i: int| 0 <= i < before ==> #[trigger] column[i] == ' '
        }),
{
    let column = right_aligned(text, width);
    assert(column.skip(column.len() - text.len()) =~= text);
}

/// A filled stretch holds nothing but its character.
pub proof fn fills_hold_one_character(c: char, n: nat)
    ensures
        fill(c, n).len() == n,
        forall|i: int| 0 <= i < n ==> #[trigger] fill(c, n)[i] == c,
{
}

/// Different numbers are written differently.
pub proof fn decimals_tell_numbers_apart(one: nat, other: nat)
    ensures
        decimal(one) == decimal(other) ==> one == other,
    decreases one,
{
    if decimal(one) == decimal(other) {
        lemma_decimal_not_empty(one / 10);
        lemma_decimal_not_empty(other / 10);
        assert(decimal(one).last() == decimal(other).last());
        if one >= 10 && other >= 10 {
            assert(decimal(one).drop_last() =~= decimal(one / 10));
            assert(decimal(other).drop_last() =~= decimal(other / 10));
            decimals_tell_numbers_apart(one / 10, other / 10);
        } else {
            assert(decimal(one).len() == decimal(other).len());
        }
    }
}

} // verus!
