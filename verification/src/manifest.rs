//! The manifest that leads from the paths of files to their ids.

use crate::base64;
use crate::status::{Status, StatusFields};
use crate::text;
use crate::views;
use vstd::prelude::*;
use vstd::string::StringExecFns;

verus! {

/// A hexadecimal digit.
pub open spec fn hex_digit(v: nat) -> char {
    if v < 10 {
        ('0' as nat + v) as char
    } else {
        ('a' as nat + (v - 10)) as char
    }
}

/// A character as it stands in a JSON string: quotes, backslashes and control characters are
/// escaped, by a letter where they have one.
pub open spec fn json_char(c: char) -> Seq<char> {
    if c == '"' || c == '\\' {
        seq!['\\', c]
    } else if c == '\u{8}' {
        seq!['\\', 'b']
    } else if c == '\t' {
        seq!['\\', 't']
    } else if c == '\n' {
        seq!['\\', 'n']
    } else if c == '\u{c}' {
        seq!['\\', 'f']
    } else if c == '\r' {
        seq!['\\', 'r']
    } else if 32 > c as nat {
        seq!['\\', 'u', '0', '0', hex_digit(c as nat / 16), hex_digit(c as nat % 16)]
    } else {
        seq![c]
    }
}

/// Characters as they stand in a JSON string.
pub open spec fn json_chars(text: Seq<char>) -> Seq<char>
    decreases text.len(),
{
    if text.len() == 0 {
        Seq::empty()
    } else {
        json_chars(text.drop_last()) + json_char(text.last())
    }
}

/// A text as a JSON string.
pub open spec fn json_string(text: Seq<char>) -> Seq<char> {
    seq!['"'] + json_chars(text) + seq!['"']
}

/// Calls `serde_json::to_string` on a string, which writes it as a JSON string. It fails only
/// where a serializer of one's own does, so never on a string.
#[verifier::external_body]
fn quoted(text: &str) -> (json: String)
    ensures
        json@ == json_string(text@),
{
    serde_json::to_string(text).unwrap()
}

/// The JSON object that leads from the path of a file to its id.
pub open spec fn path_entry(status: StatusFields) -> Seq<char> {
    "{"@ + json_string(status.file_path.unwrap()) + ":{\"id\":"@ + json_string(
        base64::encode(status.id),
    ) + "}}"@
}

/// The objects for statuses, with commas between them.
pub open spec fn path_entries(statuses: Seq<StatusFields>) -> Seq<char>
    decreases statuses.len(),
{
    if statuses.len() == 0 {
        Seq::empty()
    } else if statuses.len() == 1 {
        path_entry(statuses[0])
    } else {
        path_entries(statuses.drop_last()) + ","@ + path_entry(statuses.last())
    }
}

/// The JSON object that lists the objects for statuses.
pub open spec fn listing(statuses: Seq<StatusFields>) -> Seq<char> {
    "{\"manifest\":\"arweave/paths\",\"paths\":["@ + path_entries(statuses)
        + "],\"version\":\"0.1.0\"}"@
}

/// Whether a character is no square bracket.
pub open spec fn no_bracket(c: char) -> bool {
    c != '[' && c != ']'
}

/// The manifest for statuses: their listing without any square bracket.
pub open spec fn manifest_text(statuses: Seq<StatusFields>) -> Seq<char> {
    listing(statuses).filter(|c: char| no_bracket(c))
}

/// No square bracket stands in a manifest.
pub proof fn manifests_hold_no_bracket(statuses: Seq<StatusFields>)
    ensures
        forall|i: int|
            0 <= i < manifest_text(statuses).len() ==> no_bracket(
                #[trigger] manifest_text(statuses)[i],
            ),
{
    broadcast use vstd::seq_lib::group_filter_ensures;

}

fn push_entry(out: &mut String, status: &Status)
    requires
        status.file_path is Some,
    ensures
        final(out)@ == old(out)@ + path_entry(status@),
{
    let ghost start = out@;
    if let Some(file_path) = &status.file_path {
        out.append("{");
        out.append(quoted(file_path.as_str()).as_str());
        out.append(":{\"id\":");
        out.append(quoted(status.id.to_string().as_str()).as_str());
        out.append("}}");
        assert(out@ =~= start + path_entry(status@));
    }
}

fn without_brackets(text: &str) -> (out: String)
    ensures
        out@ == text@.filter(|c: char| no_bracket(c)),
{
    let chars = text::chars_of(text);
    let mut out = String::new();
    let mut i: usize = 0;
    let ghost keep = |c: char| no_bracket(c);
    proof {
        reveal(Seq::filter);
        assert(chars@.take(0).filter(keep) =~= Seq::empty());
    }
    while i < chars.len()
        invariant
            i <= chars.len(),
            chars@ == text@,
            keep == (|c: char| no_bracket(c)),
            out@ == chars@.take(i as int).filter(keep),
        decreases chars.len() - i,
    {
        proof {
            reveal(Seq::filter);
            assert(chars@.take(i + 1).drop_last() =~= chars@.take(i as int));
        }
        if chars[i] != '[' && chars[i] != ']' {
            out.push(chars[i]);
        }
        i = i + 1;
    }
    assert(chars@.take(i as int) =~= chars@);
    out
}

/// The manifest for statuses.
pub fn write(statuses: &Vec<Status>) -> (out: String)
    requires
        forall|i: int| 0 <= i < statuses@.len() ==> (#[trigger] statuses@[i]).file_path is Some,
    ensures
        out@ == manifest_text(views::each(statuses@)),
{
    let ghost all = views::each(statuses@);
    let mut out = String::new();
    out.append("{\"manifest\":\"arweave/paths\",\"paths\":[");
    let ghost opening = out@;
    let mut i: usize = 0;
    assert(out@ =~= opening + path_entries(all.take(0)));
    while i < statuses.len()
        invariant
            i <= statuses.len(),
            all == views::each(statuses@),
            forall|j: int| 0 <= j < statuses@.len() ==> (#[trigger] statuses@[j]).file_path is Some,
            out@ == opening + path_entries(all.take(i as int)),
        decreases statuses.len() - i,
    {
        let ghost longer = all.take(i + 1);
        if i > 0 {
            out.append(",");
        }
        push_entry(&mut out, &statuses[i]);
        proof {
            assert(longer.drop_last() =~= all.take(i as int));
            assert(longer.last() == statuses@[i as int]@);
            assert(out@ =~= opening + path_entries(longer));
        }
        i = i + 1;
    }
    assert(all.take(i as int) =~= all);
    out.append("],\"version\":\"0.1.0\"}");
    assert(out@ =~= listing(all));
    without_brackets(out.as_str())
}

/// A string stands between quotes, character by character.
pub proof fn strings_are_quoted(text: Seq<char>, last: char)
    ensures
        json_string(Seq::empty()) == seq!['"', '"'],
        json_string(text).len() >= 2,
        json_string(text.push(last)) == json_string(text).drop_last() + json_char(last) + seq!['"'],
{
    assert(text.push(last).drop_last() =~= text);
    assert(json_string(Seq::empty()) =~= seq!['"', '"']);
    assert(json_string(text).drop_last() =~= seq!['"'] + json_chars(text));
    assert(json_string(text.push(last)) =~= json_string(text).drop_last() + json_char(last)
        + seq!['"']);
}

/// Every character stands for itself but quotes, backslashes and control characters, which start
/// with a backslash. One of those that is escaped by number is escaped by its own.
pub proof fn only_what_must_be_is_escaped(c: char)
    ensures
        c as nat >= 32 && c != '"' && c != '\\' <==> json_char(c) == seq![c],
        json_char(c) != seq![c] ==> json_char(c).len() >= 2 && json_char(c)[0] == '\\',
        json_char(c).len() == 2 ==> match json_char(c)[1] {
            '"' => c == '"',
            '\\' => c == '\\',
            'b' => c as nat == 8,
            't' => c as nat == 9,
            'n' => c as nat == 10,
            'f' => c as nat == 12,
            'r' => c as nat == 13,
            _ => false,
        },
        json_char(c).len() == 6 ==> {
            let digits = "0123456789abcdef"@;
            &&& json_char(c).take(4) == seq!['\\', 'u', '0', '0']
            &&& digits.len() == 16
            &&& json_char(c)[4] == digits[c as int / 16]
            &&& json_char(c)[5] == digits[c as int % 16]
        },
        json_char(c).len() == 1 || json_char(c).len() == 2 || json_char(c).len() == 6,
{
    reveal_strlit("0123456789abcdef");
    if json_char(c).len() == 6 {
        assert(json_char(c).take(4) =~= seq!['\\', 'u', '0', '0']);
    }
    if json_char(c) == seq![c] {
        assert(json_char(c).len() == 1);
    }
}

/// Every further file comes behind a comma, as an object that leads from its path to its id.
pub proof fn files_are_listed_in_order(statuses: Seq<StatusFields>, last: StatusFields)
    requires
        last.file_path is Some,
    ensures
        ({
            let entry = "{"@ + json_string(last.file_path.unwrap()) + ":{\"id\":"@ + json_string(
                base64::encode(last.id),
            ) + "}}"@;
            &&& path_entries(Seq::empty()).len() == 0
            &&& statuses.len() == 0 ==> path_entries(statuses.push(last)) == entry
            &&& statuses.len() > 0 ==> path_entries(statuses.push(last)) == path_entries(statuses)
                + ","@ + entry
        }),
{
    assert(statuses.push(last).drop_last() =~= statuses);
}

/// A manifest is the object that names the kind of manifest, lists the files and names the version,
/// with every square bracket left out and every other character kept.
pub proof fn manifests_are_listings_without_brackets(statuses: Seq<StatusFields>)
    ensures
        manifest_text(statuses) == ("{\"manifest\":\"arweave/paths\",\"paths\":["@ + path_entries(
            statuses,
        ) + "],\"version\":\"0.1.0\"}"@).filter(|c: char| c != '[' && c != ']'),
{
    assert((|c: char| no_bracket(c)) =~= (|c: char| c != '[' && c != ']'));
}

} // verus!
