//! The Avro binary form of a list of tags: an array of records that hold two strings.

use crate::encoding;
use crate::tag::Tag;
use crate::text;
use crate::views;
use vstd::arithmetic::power::*;
use vstd::prelude::*;
use vstd::utf8::*;

verus! {

/// A natural number in groups of seven bits, least significant group first, where every byte but
/// the last has its top bit set.
pub open spec fn varint_bytes(n: nat) -> Seq<u8>
    decreases n,
{
    if n < 128 {
        seq![n as u8]
    } else {
        seq![(n % 128 + 128) as u8] + varint_bytes(n / 128)
    }
}

/// An Avro `long` that is not negative.
pub open spec fn long_bytes(n: nat) -> Seq<u8> {
    varint_bytes(2 * n)
}

/// An Avro `string`: the length of its UTF-8 form, then the UTF-8 form.
pub open spec fn string_bytes(text: Seq<char>) -> Seq<u8> {
    long_bytes(encode_utf8(text).len()) + encode_utf8(text)
}

/// One record: the name, then the value.
pub open spec fn tag_bytes(tag: Tag<Seq<char>>) -> Seq<u8> {
    string_bytes(tag.name) + string_bytes(tag.value)
}

/// The records one after the other.
pub open spec fn tag_list_bytes(tags: Seq<Tag<Seq<char>>>) -> Seq<u8>
    decreases tags.len(),
{
    if tags.len() == 0 {
        Seq::empty()
    } else {
        tag_bytes(tags[0]) + tag_list_bytes(tags.drop_first())
    }
}

/// The array: no bytes at all where there are no tags, else one block that holds all of them,
/// closed by an empty block.
pub open spec fn tags_bytes(tags: Seq<Tag<Seq<char>>>) -> Seq<u8> {
    if tags.len() == 0 {
        Seq::empty()
    } else {
        long_bytes(tags.len()) + tag_list_bytes(tags) + seq![0u8]
    }
}

/// The number at the start of `bytes` and how many bytes it takes, if it is written without
/// needless groups.
pub open spec fn parse_varint(bytes: Seq<u8>) -> Option<(nat, nat)>
    decreases bytes.len(),
{
    if bytes.len() == 0 {
        None
    } else if bytes[0] < 128 {
        Some((bytes[0] as nat, 1))
    } else {
        match parse_varint(bytes.drop_first()) {
            Some((high, taken)) => if high > 0 {
                Some(((bytes[0] - 128) as nat + 128 * high, taken + 1))
            } else {
                None
            },
            None => None,
        }
    }
}

/// The Avro `long` at the start of `bytes`, if it is not negative, and how many bytes it takes.
pub open spec fn parse_long(bytes: Seq<u8>) -> Option<(nat, nat)> {
    match parse_varint(bytes) {
        Some((n, taken)) => if n % 2 == 0 {
            Some((n / 2, taken))
        } else {
            None
        },
        None => None,
    }
}

/// The Avro `string` at the start of `bytes` and how many bytes it takes.
pub open spec fn parse_string(bytes: Seq<u8>) -> Option<(Seq<char>, nat)> {
    match parse_long(bytes) {
        Some((n, taken)) => if taken + n <= bytes.len() && valid_utf8(
            bytes.subrange(taken as int, (taken + n) as int),
        ) {
            Some((decode_utf8(bytes.subrange(taken as int, (taken + n) as int)), taken + n))
        } else {
            None
        },
        None => None,
    }
}

/// The record at the start of `bytes` and how many bytes it takes.
pub open spec fn parse_tag(bytes: Seq<u8>) -> Option<(Tag<Seq<char>>, nat)> {
    match parse_string(bytes) {
        Some((name, j)) => match parse_string(bytes.skip(j as int)) {
            Some((value, k)) => Some((Tag { name, value }, j + k)),
            None => None,
        },
        None => None,
    }
}

/// The `n` records at the start of `bytes` and how many bytes they take.
pub open spec fn parse_tag_list(bytes: Seq<u8>, n: nat) -> Option<(Seq<Tag<Seq<char>>>, nat)>
    decreases n,
{
    if n == 0 {
        Some((Seq::empty(), 0))
    } else {
        match parse_tag(bytes) {
            Some((tag, j)) => match parse_tag_list(bytes.skip(j as int), (n - 1) as nat) {
                Some((tags, k)) => Some((seq![tag] + tags, j + k)),
                None => None,
            },
            None => None,
        }
    }
}

/// The tags whose array takes up all of `bytes`, if there are such tags.
pub open spec fn parse_tags(bytes: Seq<u8>) -> Option<Seq<Tag<Seq<char>>>> {
    if bytes.len() == 0 {
        Some(Seq::empty())
    } else {
        match parse_long(bytes) {
            Some((n, j)) => if n > 0 {
                match parse_tag_list(bytes.skip(j as int), n) {
                    Some((tags, k)) => if bytes.skip((j + k) as int) == seq![0u8] {
                        Some(tags)
                    } else {
                        None
                    },
                    None => None,
                }
            } else {
                None
            },
            None => None,
        }
    }
}

proof fn lemma_parse_varint_of_bytes(n: nat, rest: Seq<u8>)
    ensures
        parse_varint(varint_bytes(n) + rest) == Some((n, varint_bytes(n).len())),
    decreases n,
{
    let whole = varint_bytes(n) + rest;
    if n >= 128 {
        lemma_parse_varint_of_bytes(n / 128, rest);
        assert(whole.drop_first() =~= varint_bytes(n / 128) + rest);
        assert(whole[0] == (n % 128 + 128) as u8);
    }
}

proof fn lemma_bytes_of_parsed_varint(bytes: Seq<u8>)
    ensures
        parse_varint(bytes) matches Some((n, taken)) ==> {
            &&& 0 < taken <= bytes.len()
            &&& bytes.take(taken as int) == varint_bytes(n)
        },
    decreases bytes.len(),
{
    if bytes.len() > 0 {
        if bytes[0] < 128 {
            assert(bytes.take(1) =~= varint_bytes(bytes[0] as nat));
        } else {
            lemma_bytes_of_parsed_varint(bytes.drop_first());
            if let Some((n, taken)) = parse_varint(bytes) {
                let high = parse_varint(bytes.drop_first()).unwrap().0;
                assert(n % 128 + 128 == bytes[0]);
                assert(n / 128 == high);
                assert(bytes.take(taken as int) =~= seq![bytes[0]] + bytes.drop_first().take(
                    taken - 1,
                ));
            }
        }
    }
}

proof fn lemma_parse_long_of_bytes(n: nat, rest: Seq<u8>)
    ensures
        parse_long(long_bytes(n) + rest) == Some((n, long_bytes(n).len())),
{
    lemma_parse_varint_of_bytes(2 * n, rest);
}

proof fn lemma_bytes_of_parsed_long(bytes: Seq<u8>)
    ensures
        parse_long(bytes) matches Some((n, taken)) ==> {
            &&& 0 < taken <= bytes.len()
            &&& bytes.take(taken as int) == long_bytes(n)
        },
{
    lemma_bytes_of_parsed_varint(bytes);
}

proof fn lemma_parse_string_of_bytes(text: Seq<char>, rest: Seq<u8>)
    ensures
        parse_string(string_bytes(text) + rest) == Some((text, string_bytes(text).len())),
{
    let utf8 = encode_utf8(text);
    let head = long_bytes(utf8.len());
    let whole = string_bytes(text) + rest;
    assert(whole =~= head + (utf8 + rest));
    lemma_parse_long_of_bytes(utf8.len(), utf8 + rest);
    assert(whole.subrange(head.len() as int, (head.len() + utf8.len()) as int) =~= utf8);
    encode_utf8_valid_utf8(text);
    encode_utf8_decode_utf8(text);
}

proof fn lemma_bytes_of_parsed_string(bytes: Seq<u8>)
    ensures
        parse_string(bytes) matches Some((text, taken)) ==> {
            &&& 0 < taken <= bytes.len()
            &&& bytes.take(taken as int) == string_bytes(text)
        },
{
    lemma_bytes_of_parsed_long(bytes);
    if let Some((text, taken)) = parse_string(bytes) {
        let (n, head) = parse_long(bytes).unwrap();
        let utf8 = bytes.subrange(head as int, (head + n) as int);
        decode_utf8_encode_utf8(utf8);
        assert(bytes.take(taken as int) =~= bytes.take(head as int) + utf8);
    }
}

proof fn lemma_parse_tag_of_bytes(tag: Tag<Seq<char>>, rest: Seq<u8>)
    ensures
        parse_tag(tag_bytes(tag) + rest) == Some((tag, tag_bytes(tag).len())),
{
    let name = string_bytes(tag.name);
    let value = string_bytes(tag.value);
    let whole = tag_bytes(tag) + rest;
    lemma_parse_string_of_bytes(tag.name, value + rest);
    lemma_parse_string_of_bytes(tag.value, rest);
    assert(whole =~= name + (value + rest));
    assert(whole.skip(name.len() as int) =~= value + rest);
}

proof fn lemma_bytes_of_parsed_tag(bytes: Seq<u8>)
    ensures
        parse_tag(bytes) matches Some((tag, taken)) ==> {
            &&& 0 < taken <= bytes.len()
            &&& bytes.take(taken as int) == tag_bytes(tag)
        },
{
    if let Some((tag, taken)) = parse_tag(bytes) {
        lemma_bytes_of_parsed_string(bytes);
        let (_, j) = parse_string(bytes).unwrap();
        let rest = bytes.skip(j as int);
        lemma_bytes_of_parsed_string(rest);
        let (_, k) = parse_string(rest).unwrap();
        assert(bytes.take(taken as int) =~= bytes.take(j as int) + rest.take(k as int));
    }
}

#[verifier::rlimit(40)]
proof fn lemma_parse_tag_list_of_bytes(tags: Seq<Tag<Seq<char>>>, rest: Seq<u8>)
    ensures
        parse_tag_list(tag_list_bytes(tags) + rest, tags.len()) == Some(
            (tags, tag_list_bytes(tags).len()),
        ),
    decreases tags.len(),
{
    let whole = tag_list_bytes(tags) + rest;
    if tags.len() == 0 {
        assert(tags =~= Seq::empty());
    } else {
        let head = tag_bytes(tags[0]);
        let tail = tag_list_bytes(tags.drop_first());
        assert(parse_tag(whole) == Some((tags[0], head.len()))) by {
            assert(whole =~= head + (tail + rest));
            lemma_parse_tag_of_bytes(tags[0], tail + rest);
        }
        assert(whole.skip(head.len() as int) =~= tail + rest);
        lemma_parse_tag_list_of_bytes(tags.drop_first(), rest);
        assert(seq![tags[0]] + tags.drop_first() =~= tags);
    }
}

proof fn lemma_bytes_of_parsed_tag_list(bytes: Seq<u8>, n: nat)
    ensures
        parse_tag_list(bytes, n) matches Some((tags, taken)) ==> {
            &&& taken <= bytes.len()
            &&& tags.len() == n
            &&& bytes.take(taken as int) == tag_list_bytes(tags)
        },
    decreases n,
{
    if n == 0 {
        assert(bytes.take(0) =~= Seq::<u8>::empty());
    } else if let Some((tags, taken)) = parse_tag_list(bytes, n) {
        lemma_bytes_of_parsed_tag(bytes);
        let (tag, j) = parse_tag(bytes).unwrap();
        let rest = bytes.skip(j as int);
        lemma_bytes_of_parsed_tag_list(rest, (n - 1) as nat);
        let (others, k) = parse_tag_list(rest, (n - 1) as nat).unwrap();
        assert(tags.drop_first() =~= others);
        assert(bytes.take(taken as int) =~= bytes.take(j as int) + rest.take(k as int));
    }
}

/// A record takes at least one byte.
proof fn lemma_tag_takes_bytes(bytes: Seq<u8>, n: nat)
    ensures
        parse_tag_list(bytes, n) is Some ==> n <= bytes.len(),
    decreases n,
{
    if n > 0 {
        if let Some((_, j)) = parse_tag(bytes) {
            lemma_bytes_of_parsed_tag(bytes);
            lemma_tag_takes_bytes(bytes.skip(j as int), (n - 1) as nat);
        }
    }
}

/// Tags are read back from their array as they were written.
pub proof fn tags_survive_writing(tags: Seq<Tag<Seq<char>>>)
    ensures
        parse_tags(tags_bytes(tags)) == Some(tags),
{
    if tags.len() == 0 {
        assert(tags =~= Seq::empty());
    } else {
        let whole = tags_bytes(tags);
        let head = long_bytes(tags.len());
        let list = tag_list_bytes(tags);
        assert(whole =~= head + (list + seq![0u8]));
        lemma_parse_long_of_bytes(tags.len(), list + seq![0u8]);
        assert(whole.skip(head.len() as int) =~= list + seq![0u8]);
        lemma_parse_tag_list_of_bytes(tags, seq![0u8]);
        assert(whole.skip((head.len() + list.len()) as int) =~= seq![0u8]);
    }
}

/// Bytes that are read as tags are the array of those tags.
pub proof fn read_tags_write_back(bytes: Seq<u8>)
    ensures
        parse_tags(bytes) matches Some(tags) ==> tags_bytes(tags) == bytes,
{
    if bytes.len() == 0 {
        assert(bytes =~= Seq::empty());
    } else if let Some(tags) = parse_tags(bytes) {
        lemma_bytes_of_parsed_long(bytes);
        let (n, j) = parse_long(bytes).unwrap();
        let rest = bytes.skip(j as int);
        lemma_bytes_of_parsed_tag_list(rest, n);
        let (_, k) = parse_tag_list(rest, n).unwrap();
        assert(bytes =~= bytes.take(j as int) + rest.take(k as int) + bytes.skip((j + k) as int));
    }
}

/// What a run of continuation bytes in front of a number does to it: nothing can be read if
/// nothing could be read after it or if the number after it is zero, else the number grows.
proof fn lemma_varint_behind_run(bytes: Seq<u8>, from: int, to: int)
    requires
        0 <= from <= to <= bytes.len(),
        forall|i: int| from <= i < to ==> bytes[i] >= 128,
    ensures
        match parse_varint(bytes.skip(to)) {
            None => parse_varint(bytes.skip(from)) is None,
            Some((n, taken)) => if n > 0 {
                parse_varint(bytes.skip(from)) matches Some((m, longer)) && m >= n && longer
                    == taken + (to - from)
            } else {
                from < to ==> parse_varint(bytes.skip(from)) is None
            },
        },
    decreases to - from,
{
    if from < to {
        lemma_varint_behind_run(bytes, from + 1, to);
        assert(bytes.skip(from).drop_first() =~= bytes.skip(from + 1));
        assert(bytes.skip(from)[0] == bytes[from]);
    }
}

/// Reading on behind the first of `n` records, with the tags of the records before it.
proof fn lemma_parse_tag_list_step(
    done: Seq<Tag<Seq<char>>>,
    bytes: Seq<u8>,
    n: nat,
    tag: Tag<Seq<char>>,
    taken: nat,
)
    requires
        n > 0,
        parse_tag(bytes) == Some((tag, taken)),
    ensures
        match parse_tag_list(bytes.skip(taken as int), (n - 1) as nat) {
            Some((others, more)) => parse_tag_list(bytes, n) matches Some((all, whole)) && done
                + all == done.push(tag) + others && whole == taken + more,
            None => parse_tag_list(bytes, n) is None,
        },
{
    if let Some((others, _)) = parse_tag_list(bytes.skip(taken as int), (n - 1) as nat) {
        assert(done + (seq![tag] + others) =~= done.push(tag) + others);
    }
}

/// Appends `n` to `out` as an Avro `long`.
fn push_long(out: &mut Vec<u8>, n: usize)
    ensures
        final(out)@ == old(out)@ + long_bytes(n as nat),
{
    let ghost start = out@;
    let mut rest: u128 = 2 * (n as u128);
    while rest >= 128
        invariant
            out@ + varint_bytes(rest as nat) =~= start + long_bytes(n as nat),
        decreases rest,
    {
        let ghost before = out@;
        let ghost whole = rest as nat;
        out.push((rest % 128 + 128) as u8);
        rest = rest / 128;
        assert(out@ + varint_bytes(rest as nat) =~= before + varint_bytes(whole));
    }
    out.push(rest as u8);
}

/// Appends `text` to `out` as an Avro `string`.
fn push_string(out: &mut Vec<u8>, text: &str)
    ensures
        final(out)@ == old(out)@ + string_bytes(text@),
{
    let ghost start = out@;
    let utf8 = text.as_bytes();
    push_long(out, utf8.len());
    encoding::push_all(out, utf8);
    assert(out@ =~= start + string_bytes(text@));
}

proof fn lemma_tag_list_push(tags: Seq<Tag<Seq<char>>>, last: Tag<Seq<char>>)
    ensures
        tag_list_bytes(tags.push(last)) == tag_list_bytes(tags) + tag_bytes(last),
    decreases tags.len(),
{
    if tags.len() == 0 {
        assert(tags.push(last).drop_first() =~= tags);
        assert(tag_list_bytes(tags.push(last)) =~= tag_bytes(last) + tag_list_bytes(tags));
    } else {
        assert(tags.push(last).drop_first() =~= tags.drop_first().push(last));
        lemma_tag_list_push(tags.drop_first(), last);
        assert(tag_list_bytes(tags.push(last)) =~= tag_list_bytes(tags) + tag_bytes(last));
    }
}

/// Writes the array of `tags`.
#[verifier::rlimit(40)]
pub fn write_tags(tags: &Vec<Tag<String>>) -> (out: Vec<u8>)
    ensures
        out@ == tags_bytes(views::each(tags@)),
{
    let mut out: Vec<u8> = Vec::new();
    if tags.len() == 0 {
        return out;
    }
    let ghost all = views::each(tags@);
    push_long(&mut out, tags.len());
    let mut i: usize = 0;
    assert(all.take(0) =~= Seq::empty());
    while i < tags.len()
        invariant
            i <= tags.len(),
            all == views::each(tags@),
            out@ =~= long_bytes(tags@.len()) + tag_list_bytes(all.take(i as int)),
        decreases tags.len() - i,
    {
        push_string(&mut out, tags[i].name.as_str());
        push_string(&mut out, tags[i].value.as_str());
        proof {
            lemma_tag_list_push(all.take(i as int), all[i as int]);
            assert(all.take(i + 1) =~= all.take(i as int).push(all[i as int]));
        }
        i = i + 1;
    }
    assert(all.take(i as int) =~= all);
    out.push(0);
    assert(out@ =~= tags_bytes(all));
    out
}

/// Reads the Avro `long` at `at`: its value and the position behind it. A value that no length
/// can have is not read.
fn read_long(bytes: &[u8], at: usize) -> (found: Option<(usize, usize)>)
    requires
        at <= bytes@.len(),
    ensures
        match found {
            Some((n, next)) => at < next <= bytes@.len() && parse_long(bytes@.skip(at as int))
                == Some((n as nat, (next - at) as nat)),
            None => parse_long(bytes@.skip(at as int)) matches Some((n, _)) ==> n > usize::MAX,
        },
{
    let total: usize = bytes.len();
    let mut end: usize = at;
    while end < total && bytes[end] >= 128
        invariant
            at <= end <= total == bytes@.len(),
            forall|i: int| at <= i < end ==> bytes@[i] >= 128,
        decreases total - end,
    {
        end = end + 1;
    }
    proof {
        lemma_varint_behind_run(bytes@, at as int, end as int);
    }
    if end == total {
        assert(bytes@.skip(end as int).len() == 0);
        return None;
    }
    let limit: u128 = 2 * (usize::MAX as u128) + 1;
    let mut value: u128 = bytes[end] as u128;
    let mut i: usize = end;
    assert(bytes@.skip(end as int)[0] == bytes@[end as int]);
    while i > at
        invariant
            at <= i <= end < total == bytes@.len(),
            forall|j: int| at <= j < end ==> bytes@[j] >= 128,
            limit == 2 * usize::MAX + 1,
            value <= limit,
            parse_varint(bytes@.skip(i as int)) == Some((value as nat, (end + 1 - i) as nat)),
        decreases i,
    {
        proof {
            lemma_varint_behind_run(bytes@, at as int, i as int);
        }
        if value == 0 {
            return None;
        }
        let ghost before = value;
        i = i - 1;
        value = (bytes[i] - 128) as u128 + 128 * value;
        proof {
            assert(bytes@.skip(i as int).drop_first() =~= bytes@.skip(i + 1));
            assert(bytes@.skip(i as int)[0] == bytes@[i as int]);
            lemma_varint_behind_run(bytes@, at as int, i as int);
        }
        if value > limit {
            return None;
        }
    }
    if value % 2 != 0 {
        return None;
    }
    Some(((value / 2) as usize, end + 1))
}

/// Reads the Avro `string` at `at`: the text and the position behind it.
fn read_string(bytes: &[u8], at: usize) -> (found: Option<(String, usize)>)
    requires
        at <= bytes@.len(),
    ensures
        match found {
            Some((s, next)) => at < next <= bytes@.len() && parse_string(bytes@.skip(at as int))
                == Some((s@, (next - at) as nat)),
            None => parse_string(bytes@.skip(at as int)) is None,
        },
{
    let total: usize = bytes.len();
    let ghost rest = bytes@.skip(at as int);
    match read_long(bytes, at) {
        None => None,
        Some((n, next)) => {
            if n > total - next {
                return None;
            }
            let utf8 = encoding::copy_range(bytes, next, n);
            assert(utf8@ =~= rest.subrange(next - at, next - at + n));
            match text::utf8_text(utf8) {
                None => None,
                Some(s) => Some((s, next + n)),
            }
        },
    }
}

/// Reads the record at `at`: the tag and the position behind it.
fn read_tag(bytes: &[u8], at: usize) -> (found: Option<(Tag<String>, usize)>)
    requires
        at <= bytes@.len(),
    ensures
        match found {
            Some((tag, next)) => at < next <= bytes@.len() && parse_tag(bytes@.skip(at as int))
                == Some((tag@, (next - at) as nat)),
            None => parse_tag(bytes@.skip(at as int)) is None,
        },
{
    match read_string(bytes, at) {
        None => None,
        Some((name, middle)) => {
            assert(bytes@.skip(middle as int) =~= bytes@.skip(at as int).skip(middle - at));
            match read_string(bytes, middle) {
                None => None,
                Some((value, next)) => Some((Tag { name, value }, next)),
            }
        },
    }
}

/// Reads the tags whose array takes up all of `bytes`.
#[verifier::rlimit(40)]
pub fn read_tags(bytes: &[u8]) -> (found: Option<Vec<Tag<String>>>)
    ensures
        match found {
            Some(tags) => tags_bytes(views::each(tags@)) == bytes@,
            None => forall|tags: Seq<Tag<Seq<char>>>| #[trigger] tags_bytes(tags) != bytes@,
        },
{
    proof {
        read_tags_write_back(bytes@);
        assert forall|tags: Seq<Tag<Seq<char>>>| #[trigger]
            tags_bytes(tags) == bytes@ implies parse_tags(bytes@) == Some(tags) by {
            tags_survive_writing(tags);
        }
    }
    let mut tags: Vec<Tag<String>> = Vec::new();
    let total: usize = bytes.len();
    if total == 0 {
        assert(views::each(tags@) =~= Seq::empty());
        return Some(tags);
    }
    assert(bytes@.skip(0) =~= bytes@);
    let (n, first) = match read_long(bytes, 0) {
        None => {
            proof {
                lemma_bytes_of_parsed_long(bytes@);
                if let Some((n, j)) = parse_long(bytes@) {
                    lemma_tag_takes_bytes(bytes@.skip(j as int), n);
                }
            }
            return None;
        },
        Some(found) => found,
    };
    if n == 0 {
        return None;
    }
    let ghost body = bytes@.skip(first as int);
    let mut at: usize = first;
    let mut i: usize = 0;
    assert(views::each(tags@) =~= Seq::empty());
    while i < n
        invariant
            i <= n,
            0 < first <= at <= total == bytes@.len(),
            body == bytes@.skip(first as int),
            tags@.len() == i,
            ({
                let done = views::each(tags@);
                match parse_tag_list(bytes@.skip(at as int), (n - i) as nat) {
                    Some((others, taken)) => parse_tag_list(body, n as nat) == Some(
                        (done + others, (at - first + taken) as nat),
                    ),
                    None => parse_tag_list(body, n as nat) is None,
                }
            }),
            parse_tags(bytes@) is Some ==> parse_tag_list(body, n as nat) is Some,
            forall|tags: Seq<Tag<Seq<char>>>| #[trigger]
                tags_bytes(tags) == bytes@ ==> parse_tags(bytes@) == Some(tags),
        decreases n - i,
    {
        let ghost done = views::each(tags@);
        let ghost here = bytes@.skip(at as int);
        match read_tag(bytes, at) {
            None => {
                return None;
            },
            Some((tag, next)) => {
                let ghost seen = tag@;
                tags.push(tag);
                proof {
                    lemma_parse_tag_list_step(done, here, (n - i) as nat, seen, (next - at) as nat);
                    assert(bytes@.skip(next as int) =~= here.skip(next - at));
                    assert(views::each(tags@) =~= done.push(seen));
                }
                at = next;
            },
        }
        i = i + 1;
    }
    proof {
        let done = views::each(tags@);
        assert(done + Seq::<Tag<Seq<char>>>::empty() =~= done);
        assert(parse_tag_list(body, n as nat) == Some((done, (at - first) as nat)));
    }
    if total - at != 1 || bytes[at] != 0 {
        assert(bytes@.skip(at as int) != seq![0u8]) by {
            if bytes@.skip(at as int) == seq![0u8] {
                assert(bytes@.skip(at as int)[0] == bytes@[at as int]);
            }
        }
        return None;
    }
    assert(bytes@.skip(at as int) =~= seq![0u8]);
    Some(tags)
}

/// A number is written in groups of seven bits, least significant first, in as many bytes as it
/// needs: the top bit of a byte says that another one follows.
pub proof fn varints_are_the_digits(n: nat, k: int)
    requires
        0 <= k < varint_bytes(n).len(),
    ensures
        varint_bytes(n)[k] as int == n as int / pow(128, k as nat) % 128 + if k + 1
            < varint_bytes(n).len() {
            128int
        } else {
            0
        },
        (n as int) < pow(128, varint_bytes(n).len()),
        varint_bytes(n).len() > 1 ==> n as int >= pow(128, (varint_bytes(n).len() - 1) as nat),
    decreases n,
{
    let len = varint_bytes(n).len();
    reveal_with_fuel(pow, 2);
    lemma_pow0(128);
    if n >= 128 {
        let high = n / 128;
        let rest = varint_bytes(high);
        lemma_varint_not_empty(high);
        assert(rest.len() == len - 1);
        if k == 0 {
            varints_are_the_digits(high, 0);
        } else {
            varints_are_the_digits(high, k - 1);
            let low = pow(128, (k - 1) as nat);
            lemma_pow_positive(128, (k - 1) as nat);
            assert(pow(128, k as nat) == 128 * low);
            vstd::arithmetic::div_mod::lemma_div_denominator(n as int, 128, low);
            assert(varint_bytes(n)[k] == rest[k - 1]);
        }
        assert(pow(128, len) == 128 * pow(128, (len - 1) as nat));
        if len > 2 {
            assert(pow(128, (len - 1) as nat) == 128 * pow(128, (len - 2) as nat));
        } else {
            assert(pow(128, 1) == 128);
        }
    }
}

proof fn lemma_varint_not_empty(n: nat)
    ensures
        varint_bytes(n).len() > 0,
{
}

/// A text is written as its UTF-8 bytes, behind twice their number; a tag as its name and its
/// value; tags one after the other; and their array starts with twice their number and ends with
/// a zero, or is empty where there are none.
pub proof fn arrays_hold_the_tags_in_order(
    tags: Seq<Tag<Seq<char>>>,
    more: Seq<Tag<Seq<char>>>,
    tag: Tag<Seq<char>>,
)
    ensures
        string_bytes(tag.name) == varint_bytes(2 * encode_utf8(tag.name).len()) + encode_utf8(
            tag.name,
        ),
        tag_list_bytes(seq![tag]) == string_bytes(tag.name) + string_bytes(tag.value),
        tag_list_bytes(tags + more) == tag_list_bytes(tags) + tag_list_bytes(more),
        tags.len() == 0 ==> tags_bytes(tags).len() == 0,
        tags.len() > 0 ==> tags_bytes(tags) == varint_bytes(2 * tags.len()) + tag_list_bytes(tags)
            + seq![0u8],
    decreases tags.len(),
{
    let one = seq![tag];
    reveal_with_fuel(tag_list_bytes, 2);
    assert(one.drop_first() =~= Seq::empty());
    assert(tag_list_bytes(one) =~= string_bytes(tag.name) + string_bytes(tag.value));
    if tags.len() == 0 {
        assert(tags + more =~= more);
        assert(tag_list_bytes(tags + more) =~= tag_list_bytes(tags) + tag_list_bytes(more));
    } else {
        arrays_hold_the_tags_in_order(tags.drop_first(), more, tag);
        assert((tags + more).drop_first() =~= tags.drop_first() + more);
        assert(tag_list_bytes(tags + more) =~= tag_list_bytes(tags) + tag_list_bytes(more));
    }
}

} // verus!
