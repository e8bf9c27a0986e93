//! Name and value pairs that are attached to transactions and data items.

use crate::base64::Base64;
use crate::error::Error;
use crate::views;
use vstd::prelude::*;
use vstd::string::StringExecFns;
use vstd::utf8::encode_utf8;

verus! {

/// A name with a value.
#[derive(Debug, PartialEq, Eq)]
pub struct Tag<T> {
    pub name: T,
    pub value: T,
}

impl<T: View> View for Tag<T> {
    type V = Tag<T::V>;

    open spec fn view(&self) -> Tag<T::V> {
        Tag { name: self.name@, value: self.value@ }
    }
}

/// A tag of two texts as the UTF-8 bytes of both.
pub open spec fn utf8_tag(tag: Tag<Seq<char>>) -> Tag<Seq<u8>> {
    Tag { name: encode_utf8(tag.name), value: encode_utf8(tag.value) }
}

impl Tag<Base64> {
    /// A tag that holds the UTF-8 bytes of two texts.
    pub fn from_utf8_strs(name: &str, value: &str) -> (tag: Result<Self, Error>)
        ensures
            tag matches Ok(t) && t@ == utf8_tag(Tag { name: name@, value: value@ }),
    {
        Ok(Tag { name: Base64::from_utf8_str(name), value: Base64::from_utf8_str(value) })
    }
}

impl Tag<String> {
    /// A tag that holds two texts.
    pub fn from_utf8_strs(name: &str, value: &str) -> (tag: Result<Self, Error>)
        ensures
            tag matches Ok(t) && t@ == (Tag { name: name@, value: value@ }),
    {
        Ok(Tag { name: name.to_owned(), value: value.to_owned() })
    }
}

impl Clone for Tag<Base64> {
    fn clone(&self) -> (copy: Self)
        ensures
            copy@ == self@,
    {
        Tag { name: self.name.clone(), value: self.value.clone() }
    }
}

impl Clone for Tag<String> {
    fn clone(&self) -> (copy: Self)
        ensures
            copy@ == self@,
    {
        Tag { name: self.name.clone(), value: self.value.clone() }
    }
}

/// A copy of a list of tags.
pub fn copy_texts(tags: &Vec<Tag<String>>) -> (copy: Vec<Tag<String>>)
    ensures
        views::each(copy@) == views::each(tags@),
{
    let mut copy: Vec<Tag<String>> = Vec::new();
    let mut i: usize = 0;
    while i < tags.len()
        invariant
            i <= tags.len(),
            views::each(copy@) =~= views::each(tags@).take(i as int),
        decreases tags.len() - i,
    {
        let ghost before = views::each(copy@);
        let next = tags[i].clone();
        let ghost seen = next@;
        copy.push(next);
        assert(views::each(copy@) =~= before.push(seen));
        i = i + 1;
    }
    copy
}

/// A copy of a list of tags.
pub fn copy_bytes(tags: &Vec<Tag<Base64>>) -> (copy: Vec<Tag<Base64>>)
    ensures
        views::each(copy@) == views::each(tags@),
{
    let mut copy: Vec<Tag<Base64>> = Vec::new();
    let mut i: usize = 0;
    while i < tags.len()
        invariant
            i <= tags.len(),
            views::each(copy@) =~= views::each(tags@).take(i as int),
        decreases tags.len() - i,
    {
        let ghost before = views::each(copy@);
        let next = tags[i].clone();
        let ghost seen = next@;
        copy.push(next);
        assert(views::each(copy@) =~= before.push(seen));
        i = i + 1;
    }
    copy
}

/// The bytes of a tag are the UTF-8 forms of its texts: they give the texts back.
pub proof fn tag_bytes_give_the_texts_back(tag: Tag<Seq<char>>)
    ensures
        utf8_tag(tag).name == encode_utf8(tag.name),
        utf8_tag(tag).value == encode_utf8(tag.value),
        vstd::utf8::decode_utf8(utf8_tag(tag).name) == tag.name,
        vstd::utf8::decode_utf8(utf8_tag(tag).value) == tag.value,
{
    vstd::utf8::encode_utf8_decode_utf8(tag.name);
    vstd::utf8::encode_utf8_decode_utf8(tag.value);
}

/// The name and the value of a tag count, each for itself.
pub proof fn name_and_value_count<T: View>(tag: Tag<T>)
    ensures
        tag@.name == tag.name@,
        tag@.value == tag.value@,
{
}

} // verus!
