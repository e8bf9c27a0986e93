//! Fixed-width integers as bytes.

use vstd::arithmetic::power::*;
use vstd::prelude::*;

verus! {

/// `n` in base 256, least significant byte first, cut off or padded with zeros to `width` bytes.
pub open spec fn le_bytes(n: nat, width: nat) -> Seq<u8>
    decreases width,
{
    if width == 0 {
        Seq::empty()
    } else {
        seq![(n % 256) as u8] + le_bytes(n / 256, (width - 1) as nat)
    }
}

/// The number that `bytes` spell in base 256, least significant byte first.
pub open spec fn le_value(bytes: Seq<u8>) -> nat
    decreases bytes.len(),
{
    if bytes.len() == 0 {
        0
    } else {
        bytes[0] as nat + 256 * le_value(bytes.drop_first())
    }
}

/// `n` as a big-endian integer of 32 bytes.
pub open spec fn note(n: nat) -> Seq<u8> {
    le_bytes(n, 32).reverse()
}

pub proof fn lemma_le_bytes_len(n: nat, width: nat)
    ensures
        le_bytes(n, width).len() == width,
    decreases width,
{
    if width > 0 {
        lemma_le_bytes_len(n / 256, (width - 1) as nat);
    }
}

/// Reading back the bytes of a number that fits gives the number.
pub proof fn le_value_reads_le_bytes(n: nat, width: nat)
    requires
        n < pow(256, width),
    ensures
        le_value(le_bytes(n, width)) == n,
    decreases width,
{
    if width == 0 {
        lemma_pow0(256);
    } else {
        let rest = le_bytes(n / 256, (width - 1) as nat);
        reveal_with_fuel(pow, 2);
        assert(n / 256 < pow(256, (width - 1) as nat)) by (nonlinear_arith)
            requires
                n < 256 * pow(256, (width - 1) as nat),
        ;
        le_value_reads_le_bytes(n / 256, (width - 1) as nat);
        assert(le_bytes(n, width).drop_first() =~= rest);
    }
}

/// Writing the number that bytes spell gives the bytes.
pub proof fn le_bytes_writes_le_value(bytes: Seq<u8>)
    ensures
        le_bytes(le_value(bytes), bytes.len()) == bytes,
    decreases bytes.len(),
{
    if bytes.len() > 0 {
        let rest = bytes.drop_first();
        le_bytes_writes_le_value(rest);
        let v = le_value(bytes);
        assert(v % 256 == bytes[0] as nat);
        assert(v / 256 == le_value(rest));
        assert(le_bytes(v, bytes.len()) =~= bytes);
    } else {
        assert(le_bytes(0, 0) =~= bytes);
    }
}

pub proof fn lemma_le_value_bound(bytes: Seq<u8>)
    ensures
        le_value(bytes) < pow(256, bytes.len()),
    decreases bytes.len(),
{
    if bytes.len() == 0 {
        lemma_pow0(256);
    } else {
        lemma_le_value_bound(bytes.drop_first());
        reveal_with_fuel(pow, 2);
    }
}

pub proof fn lemma_pow256_8()
    ensures
        pow(256, 8) == 0x1_0000_0000_0000_0000,
{
    reveal_with_fuel(pow, 9);
}

/// Appends `value` to `out` as `width` bytes, least significant first.
pub fn push_le(out: &mut Vec<u8>, value: u64, width: usize)
    ensures
        final(out)@ == old(out)@ + le_bytes(value as nat, width as nat),
{
    let ghost start = out@;
    let mut rest: u64 = value;
    let mut done: usize = 0;
    while done < width
        invariant
            done <= width,
            out@ + le_bytes(rest as nat, (width - done) as nat) =~= start + le_bytes(
                value as nat,
                width as nat,
            ),
        decreases width - done,
    {
        let ghost before = out@;
        let ghost rest_before = rest as nat;
        out.push((rest % 256) as u8);
        rest = rest / 256;
        done = done + 1;
        proof {
            let tail = le_bytes(rest as nat, (width - done) as nat);
            assert(le_bytes(rest_before, (width - done + 1) as nat) == seq![
                (rest_before % 256) as u8,
            ] + tail);
            assert(out@ + tail =~= before + (seq![(rest_before % 256) as u8] + tail));
        }
    }
    assert(out@ + le_bytes(rest as nat, 0) =~= out@);
}

/// Reads the `width` bytes of `bytes` that start at `at`, least significant first.
pub fn read_le(bytes: &[u8], at: usize, width: usize) -> (value: u64)
    requires
        width <= 8,
        at + width <= bytes@.len(),
    ensures
        value as nat == le_value(bytes@.subrange(at as int, at + width)),
{
    let total: usize = bytes.len();
    let mut value: u64 = 0;
    let mut left: usize = width;
    while left > 0
        invariant
            left <= width <= 8,
            at + width <= total == bytes@.len(),
            value as nat == le_value(bytes@.subrange(at + left, at + width)),
        decreases left,
    {
        let ghost tail = bytes@.subrange(at + left, at + width);
        left = left - 1;
        let byte: u8 = bytes[at + left];
        proof {
            let longer = bytes@.subrange(at + left, at + width);
            assert(longer.drop_first() =~= tail);
            lemma_le_value_bound(longer);
            lemma_pow_increases(256, longer.len(), 8);
            lemma_pow256_8();
        }
        value = value * 256 + byte as u64;
    }
    value
}

/// Writes `n` as a big-endian integer of 32 bytes.
pub fn note_bytes(n: u64) -> (out: Vec<u8>)
    ensures
        out@ == note(n as nat),
{
    let mut little: Vec<u8> = Vec::new();
    push_le(&mut little, n, 32);
    proof {
        lemma_le_bytes_len(n as nat, 32);
    }
    assert(little@ =~= le_bytes(n as nat, 32));
    let mut out: Vec<u8> = Vec::new();
    let mut left: usize = 32;
    while left > 0
        invariant
            left <= 32,
            little@ == le_bytes(n as nat, 32),
            little@.len() == 32,
            out@ =~= note(n as nat).take(32 - left),
        decreases left,
    {
        left = left - 1;
        out.push(little[left]);
    }
    out
}

/// Appends the bytes of `more` to `out`.
pub fn push_all(out: &mut Vec<u8>, more: &[u8])
    ensures
        final(out)@ == old(out)@ + more@,
{
    let ghost start = out@;
    out.extend_from_slice(more);
    assert(out@ =~= start + more@);
}

/// The `len` bytes of `bytes` that start at `at`.
pub fn copy_range(bytes: &[u8], at: usize, len: usize) -> (out: Vec<u8>)
    requires
        at + len <= bytes@.len(),
    ensures
        out@ == bytes@.subrange(at as int, at + len),
{
    let total: usize = bytes.len();
    assert(at + len <= total);
    let mut out: Vec<u8> = Vec::new();
    push_all(&mut out, vstd::slice::slice_subrange(bytes, at, at + len));
    assert(out@ =~= bytes@.subrange(at as int, at + len));
    out
}

/// Byte strings one after the other.
pub open spec fn concat(parts: Seq<Seq<u8>>) -> Seq<u8>
    decreases parts.len(),
{
    if parts.len() == 0 {
        Seq::empty()
    } else {
        parts[0] + concat(parts.drop_first())
    }
}

pub proof fn lemma_concat_push(parts: Seq<Seq<u8>>, last: Seq<u8>)
    ensures
        concat(parts.push(last)) == concat(parts) + last,
    decreases parts.len(),
{
    let longer = parts.push(last);
    if parts.len() == 0 {
        reveal_with_fuel(concat, 2);
        assert(longer.drop_first() =~= Seq::empty());
        assert(concat(longer) =~= concat(parts) + last);
    } else {
        assert(longer.drop_first() =~= parts.drop_first().push(last));
        lemma_concat_push(parts.drop_first(), last);
        assert(concat(longer) =~= concat(parts) + last);
    }
}

pub proof fn lemma_concat_split(parts: Seq<Seq<u8>>, i: int)
    requires
        0 <= i <= parts.len(),
    ensures
        concat(parts) == concat(parts.take(i)) + concat(parts.skip(i)),
    decreases i,
{
    if i == 0 {
        assert(parts.take(0) =~= Seq::empty());
        assert(parts.skip(0) =~= parts);
        assert(concat(parts) =~= concat(parts.take(0)) + concat(parts));
    } else {
        let rest = parts.drop_first();
        lemma_concat_split(rest, i - 1);
        assert(parts.take(i).drop_first() =~= rest.take(i - 1));
        assert(parts.skip(i) =~= rest.skip(i - 1));
        assert(concat(parts) =~= concat(parts.take(i)) + concat(parts.skip(i)));
    }
}

/// Where the element at `i` stands among byte strings that follow each other.
pub proof fn lemma_concat_at(parts: Seq<Seq<u8>>, i: int)
    requires
        0 <= i < parts.len(),
    ensures
        concat(parts.take(i + 1)) == concat(parts.take(i)) + parts[i],
        concat(parts.take(i + 1)).len() <= concat(parts).len(),
        concat(parts).subrange(
            concat(parts.take(i)).len() as int,
            (concat(parts.take(i)).len() + parts[i].len()) as int,
        ) == parts[i],
{
    lemma_concat_split(parts, i + 1);
    lemma_concat_push(parts.take(i), parts[i]);
    assert(parts.take(i + 1) =~= parts.take(i).push(parts[i]));
    assert(concat(parts).subrange(
        concat(parts.take(i)).len() as int,
        (concat(parts.take(i)).len() + parts[i].len()) as int,
    ) =~= parts[i]);
}

/// Byte strings of one length take up that length each.
pub proof fn lemma_concat_len(parts: Seq<Seq<u8>>, len: nat)
    requires
        forall|i: int| 0 <= i < parts.len() ==> (#[trigger] parts[i]).len() == len,
    ensures
        concat(parts).len() == len * parts.len(),
    decreases parts.len(),
{
    if parts.len() > 0 {
        lemma_concat_len(parts.drop_first(), len);
        vstd::arithmetic::mul::lemma_mul_is_distributive_add(
            len as int,
            parts.len() - 1,
            1,
        );
    } else {
        assert(len * 0 == 0) by (nonlinear_arith);
    }
}

/// The low bytes of a number are what it spells in fewer bytes.
pub proof fn lemma_le_bytes_take(n: nat, width: nat, low: nat)
    requires
        low <= width,
    ensures
        le_bytes(n, width).take(low as int) == le_bytes(n, low),
    decreases low,
{
    lemma_le_bytes_len(n, width);
    if low == 0 {
        assert(le_bytes(n, width).take(0) =~= Seq::empty());
    } else {
        lemma_le_bytes_take(n / 256, (width - 1) as nat, (low - 1) as nat);
        lemma_le_bytes_len(n / 256, (width - 1) as nat);
        assert(le_bytes(n, width).take(low as int) =~= seq![(n % 256) as u8] + le_bytes(
            n / 256,
            (width - 1) as nat,
        ).take(low - 1));
    }
}

/// The byte at `i` is the digit of the number in base 256 that counts for 256 to the power of `i`.
pub proof fn le_bytes_are_the_digits(n: nat, width: nat, i: int)
    requires
        0 <= i < width,
    ensures
        le_bytes(n, width).len() == width,
        le_bytes(n, width)[i] as int == n as int / pow(256, i as nat) % 256,
    decreases width,
{
    lemma_le_bytes_len(n, width);
    lemma_le_bytes_len(n / 256, (width - 1) as nat);
    if i == 0 {
        lemma_pow0(256);
    } else {
        le_bytes_are_the_digits(n / 256, (width - 1) as nat, i - 1);
        let low = pow(256, (i - 1) as nat);
        lemma_pow_positive(256, (i - 1) as nat);
        reveal_with_fuel(pow, 2);
        assert(pow(256, i as nat) == 256 * low);
        vstd::arithmetic::div_mod::lemma_div_denominator(n as int, 256, low);
    }
}

/// A note has 32 bytes, and its byte at `i`, counted from the end, is the digit that counts for
/// 256 to the power of `i`.
pub proof fn notes_are_the_digits_backwards(n: nat, i: int)
    requires
        0 <= i < 32,
    ensures
        note(n).len() == 32,
        note(n)[31 - i] as int == n as int / pow(256, i as nat) % 256,
{
    le_bytes_are_the_digits(n, 32, i);
}

/// Nothing stands between byte strings that follow each other: a part at the end comes directly
/// behind all the parts before it.
pub proof fn parts_follow_each_other(parts: Seq<Seq<u8>>, last: Seq<u8>)
    ensures
        concat(Seq::<Seq<u8>>::empty()) == Seq::<u8>::empty(),
        concat(parts.push(last)).len() == concat(parts).len() + last.len(),
        concat(parts.push(last)).take(concat(parts).len() as int) == concat(parts),
        concat(parts.push(last)).skip(concat(parts).len() as int) == last,
{
    lemma_concat_push(parts, last);
    let all = concat(parts.push(last));
    assert(all.take(concat(parts).len() as int) =~= concat(parts));
    assert(all.skip(concat(parts).len() as int) =~= last);
}

} // verus!
