//! What is told about uploaded data: its content type and who uploaded it.

use crate::tag::Tag;
use crate::views;
use vstd::prelude::*;
use vstd::string::StringExecFns;

verus! {

/// The version that uploads name.
pub const VERSION: &'static str = "0.1.20";

/// The content type of data that shows no known signature.
pub const UNKNOWN_CONTENT: &'static str = "application/octet-stream";

/// The content type that the first bytes of data give away, if any.
pub uninterp spec fn sniffed_type(data: Seq<u8>) -> Option<Seq<char>>;

/// Calls `infer::get`, which looks for the signatures of known file types, and takes the name of
/// the content type that it finds.
#[verifier::external_body]
pub(crate) fn sniff(data: &[u8]) -> (found: Option<String>)
    ensures
        views::maybe(found) == sniffed_type(data@),
{
    infer::get(data).map(|kind| kind.mime_type().to_string())
}

/// The content type that data is tagged with, given what its bytes gave away.
pub open spec fn content_type(found: Option<Seq<char>>) -> Seq<char> {
    match found {
        Some(name) => name,
        None => UNKNOWN_CONTENT@,
    }
}

/// What uploads name as their origin.
pub open spec fn user_agent() -> Seq<char> {
    "arloader/"@ + VERSION@
}

/// The tags that every upload carries, given what the bytes of its data gave away.
pub open spec fn standard_tags(found: Option<Seq<char>>) -> Seq<Tag<Seq<char>>> {
    seq![
        Tag { name: "Content-Type"@, value: content_type(found) },
        Tag { name: "User-Agent"@, value: user_agent() },
    ]
}

/// The content type that data is tagged with, given what its bytes gave away.
pub fn content_type_of(found: Option<String>) -> (name: String)
    ensures
        name@ == content_type(views::maybe(found)),
{
    match found {
        Some(name) => name,
        None => UNKNOWN_CONTENT.to_owned(),
    }
}

/// What uploads name as their origin.
pub fn user_agent_text() -> (name: String)
    ensures
        name@ == user_agent(),
{
    let mut name = "arloader/".to_owned();
    name.append(VERSION);
    name
}

/// Data is labelled with the content type that it gives away, or as a stream of bytes, and with
/// the name and the version of the uploader.
pub proof fn labels_name_type_and_origin(found: Option<Seq<char>>)
    ensures
        standard_tags(found).len() == 2,
        standard_tags(found)[0].name == "Content-Type"@,
        found matches Some(name) ==> standard_tags(found)[0].value == name,
        found is None ==> standard_tags(found)[0].value == "application/octet-stream"@,
        standard_tags(found)[1].name == "User-Agent"@,
        standard_tags(found)[1].value == "arloader/0.1.20"@,
{
    reveal_strlit("arloader/");
    reveal_strlit("0.1.20");
    reveal_strlit("arloader/0.1.20");
    assert(user_agent() =~= "arloader/0.1.20"@);
}

} // verus!
